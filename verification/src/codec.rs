use crate::queue::{item_model_at, items_model, ItemModel, OpModel, QueueItem, QueueOperation};
use vstd::prelude::*;

verus! {

broadcast use {vstd::utf8::char_is_scalar, vstd::utf8::char_u32_cast};

// The wire layout, an implementation choice of this library, is
// self-describing: a one-byte variant tag, then the fields in order.
// Unsigned 64-bit words are little-endian; a string is a length word
// followed by one 4-byte little-endian Unicode scalar per character; a
// byte field is a length word followed by the raw bytes; an optional
// offset is a presence byte, then the word when present. A message is
// decoded only when it is consumed exactly, with nothing trailing.
/// The little-endian bytes of a 64-bit word.
pub open spec fn enc_u64(x: u64) -> Seq<u8> {
    seq![
        (x & 0xff) as u8,
        ((x >> 8) & 0xff) as u8,
        ((x >> 16) & 0xff) as u8,
        ((x >> 24) & 0xff) as u8,
        ((x >> 32) & 0xff) as u8,
        ((x >> 40) & 0xff) as u8,
        ((x >> 48) & 0xff) as u8,
        ((x >> 56) & 0xff) as u8,
    ]
}

/// The little-endian bytes of a 32-bit word.
pub open spec fn enc_u32(x: u32) -> Seq<u8> {
    seq![(x & 0xff) as u8, ((x >> 8) & 0xff) as u8, ((x >> 16) & 0xff) as u8, ((x >> 24)
        & 0xff) as u8]
}

/// The 64-bit word read from eight little-endian bytes.
pub open spec fn u64_of_bytes(
    b0: u8,
    b1: u8,
    b2: u8,
    b3: u8,
    b4: u8,
    b5: u8,
    b6: u8,
    b7: u8,
) -> u64 {
    (b0 as u64) | ((b1 as u64) << 8) | ((b2 as u64) << 16) | ((b3 as u64) << 24) | ((b4
        as u64) << 32) | ((b5 as u64) << 40) | ((b6 as u64) << 48) | ((b7 as u64) << 56)
}

/// The 32-bit word read from four little-endian bytes.
pub open spec fn u32_of_bytes(b0: u8, b1: u8, b2: u8, b3: u8) -> u32 {
    (b0 as u32) | ((b1 as u32) << 8) | ((b2 as u32) << 16) | ((b3 as u32) << 24)
}

/// A value that names a Unicode scalar: not a surrogate, at most 0x10FFFF.
pub open spec fn valid_unicode_scalar(v: u32) -> bool {
    v < 0xD800 || (0xE000 <= v && v <= 0x10FFFF)
}

/// The encoding of a string: a length word, then each character.
pub open spec fn enc_chars(s: Seq<char>) -> Seq<u8>
    decreases s.len(),
{
    if s.len() == 0 {
        Seq::empty()
    } else {
        enc_u32(s.first() as u32) + enc_chars(s.drop_first())
    }
}

pub open spec fn enc_str(s: Seq<char>) -> Seq<u8> {
    enc_u64(s.len() as u64) + enc_chars(s)
}

/// The encoding of a byte field: a length word, then the raw bytes.
pub open spec fn enc_bytes(v: Seq<u8>) -> Seq<u8> {
    enc_u64(v.len() as u64) + v
}

/// The encoding of an optional offset: a presence byte, then the word.
pub open spec fn enc_opt_usize(o: Option<usize>) -> Seq<u8> {
    match o {
        None => seq![0u8],
        Some(v) => seq![1u8] + enc_u64(v as u64),
    }
}

/// The encoding of one operation: a variant tag, then its fields.
pub open spec fn spec_encode_op(op: OpModel) -> Seq<u8> {
    match op {
        OpModel::AddTopic(t) => seq![0u8] + enc_str(t),
        OpModel::AddConsumer(c, t, o) => seq![1u8] + enc_str(c) + enc_str(t) + enc_opt_usize(o),
        OpModel::AddItem(t, k, v) => seq![2u8] + enc_str(t) + enc_str(k) + enc_bytes(v),
        OpModel::SetReadOffset(c, t, o) => seq![3u8] + enc_str(c) + enc_str(t) + enc_u64(o as u64),
        OpModel::ReadBatch(c, t, o) => seq![4u8] + enc_str(c) + enc_str(t) + enc_u64(o as u64),
    }
}

/// The encoding of one item: key, value, creation time.
pub open spec fn spec_encode_item(it: ItemModel) -> Seq<u8> {
    enc_str(it.key) + enc_bytes(it.value) + enc_u64(it.created)
}

pub open spec fn enc_items(items: Seq<ItemModel>) -> Seq<u8>
    decreases items.len(),
{
    if items.len() == 0 {
        Seq::empty()
    } else {
        spec_encode_item(items.first()) + enc_items(items.drop_first())
    }
}

/// The encoding of an item batch: a count word, then each item.
pub open spec fn spec_encode_batch(items: Seq<ItemModel>) -> Seq<u8> {
    enc_u64(items.len() as u64) + enc_items(items)
}

pub open spec fn dec_u64(s: Seq<u8>) -> Option<(u64, Seq<u8>)> {
    if s.len() < 8 {
        None
    } else {
        Some((u64_of_bytes(s[0], s[1], s[2], s[3], s[4], s[5], s[6], s[7]), s.skip(8)))
    }
}

pub open spec fn dec_usize(s: Seq<u8>) -> Option<(usize, Seq<u8>)> {
    match dec_u64(s) {
        Some((n, rest)) => if n <= usize::MAX as u64 {
            Some((n as usize, rest))
        } else {
            None
        },
        None => None,
    }
}

pub open spec fn dec_chars(s: Seq<u8>, n: nat) -> Option<(Seq<char>, Seq<u8>)>
    decreases n,
{
    if n == 0 {
        Some((Seq::empty(), s))
    } else if s.len() < 4 {
        None
    } else {
        let v = u32_of_bytes(s[0], s[1], s[2], s[3]);
        if valid_unicode_scalar(v) {
            match dec_chars(s.skip(4), (n - 1) as nat) {
                Some((cs, rest)) => Some((seq![v as char] + cs, rest)),
                None => None,
            }
        } else {
            None
        }
    }
}

pub open spec fn dec_str(s: Seq<u8>) -> Option<(Seq<char>, Seq<u8>)> {
    match dec_u64(s) {
        Some((n, rest)) => dec_chars(rest, n as nat),
        None => None,
    }
}

pub open spec fn dec_bytes(s: Seq<u8>) -> Option<(Seq<u8>, Seq<u8>)> {
    match dec_u64(s) {
        Some((n, rest)) => if rest.len() < n {
            None
        } else {
            Some((rest.take(n as int), rest.skip(n as int)))
        },
        None => None,
    }
}

pub open spec fn dec_opt_usize(s: Seq<u8>) -> Option<(Option<usize>, Seq<u8>)> {
    if s.len() < 1 {
        None
    } else if s[0] == 0 {
        Some((None, s.skip(1)))
    } else if s[0] == 1 {
        match dec_usize(s.skip(1)) {
            Some((v, rest)) => Some((Some(v), rest)),
            None => None,
        }
    } else {
        None
    }
}

/// The operation a byte message holds, when the message is well-formed
/// and consumed exactly.
pub open spec fn spec_decode_op(s: Seq<u8>) -> Option<OpModel> {
    if s.len() == 0 {
        None
    } else {
        let tag = s[0];
        let body = s.skip(1);
        if tag == 0 {
            match dec_str(body) {
                Some((t, rest)) => if rest.len() == 0 {
                    Some(OpModel::AddTopic(t))
                } else {
                    None
                },
                None => None,
            }
        } else if tag == 1 {
            match dec_str(body) {
                Some((c, r1)) => match dec_str(r1) {
                    Some((t, r2)) => match dec_opt_usize(r2) {
                        Some((o, r3)) => if r3.len() == 0 {
                            Some(OpModel::AddConsumer(c, t, o))
                        } else {
                            None
                        },
                        None => None,
                    },
                    None => None,
                },
                None => None,
            }
        } else if tag == 2 {
            match dec_str(body) {
                Some((t, r1)) => match dec_str(r1) {
                    Some((k, r2)) => match dec_bytes(r2) {
                        Some((v, r3)) => if r3.len() == 0 {
                            Some(OpModel::AddItem(t, k, v))
                        } else {
                            None
                        },
                        None => None,
                    },
                    None => None,
                },
                None => None,
            }
        } else if tag == 3 {
            match dec_str(body) {
                Some((c, r1)) => match dec_str(r1) {
                    Some((t, r2)) => match dec_usize(r2) {
                        Some((o, r3)) => if r3.len() == 0 {
                            Some(OpModel::SetReadOffset(c, t, o))
                        } else {
                            None
                        },
                        None => None,
                    },
                    None => None,
                },
                None => None,
            }
        } else if tag == 4 {
            match dec_str(body) {
                Some((c, r1)) => match dec_str(r1) {
                    Some((t, r2)) => match dec_usize(r2) {
                        Some((o, r3)) => if r3.len() == 0 {
                            Some(OpModel::ReadBatch(c, t, o))
                        } else {
                            None
                        },
                        None => None,
                    },
                    None => None,
                },
                None => None,
            }
        } else {
            None
        }
    }
}

pub open spec fn dec_item(s: Seq<u8>) -> Option<(ItemModel, Seq<u8>)> {
    match dec_str(s) {
        Some((k, r1)) => match dec_bytes(r1) {
            Some((v, r2)) => match dec_u64(r2) {
                Some((cr, r3)) => Some((item_model_at(k, v, cr), r3)),
                None => None,
            },
            None => None,
        },
        None => None,
    }
}

pub open spec fn dec_items(s: Seq<u8>, n: nat) -> Option<(Seq<ItemModel>, Seq<u8>)>
    decreases n,
{
    if n == 0 {
        Some((Seq::empty(), s))
    } else {
        match dec_item(s) {
            Some((it, rest)) => match dec_items(rest, (n - 1) as nat) {
                Some((its, rest2)) => Some((seq![it] + its, rest2)),
                None => None,
            },
            None => None,
        }
    }
}

/// The item batch a byte message holds, when the message is well-formed
/// and consumed exactly.
pub open spec fn spec_decode_batch(s: Seq<u8>) -> Option<Seq<ItemModel>> {
    match dec_u64(s) {
        Some((n, rest)) => match dec_items(rest, n as nat) {
            Some((items, rest2)) => if rest2.len() == 0 {
                Some(items)
            } else {
                None
            },
            None => None,
        },
        None => None,
    }
}

/// Relies on char::from_u32: `Some` exactly for values that name a
/// Unicode scalar (not a surrogate, at most 0x10FFFF), holding the
/// character with that code.
#[verifier::external_body]
fn char_from_u32(v: u32) -> (r: Option<char>)
    ensures
        r is Some <==> valid_unicode_scalar(v),
        r matches Some(c) ==> c as u32 == v,
{
    char::from_u32(v)
}

/// Relies on String::push: appends exactly the given character.
#[verifier::external_body]
pub(crate) fn string_push(s: &mut String, c: char)
    ensures
        final(s)@ == old(s)@.push(c),
{
    s.push(c);
}

fn push_u64(out: &mut Vec<u8>, x: u64)
    ensures
        final(out)@ == old(out)@ + enc_u64(x),
{
    out.push((x & 0xff) as u8);
    out.push(((x >> 8) & 0xff) as u8);
    out.push(((x >> 16) & 0xff) as u8);
    out.push(((x >> 24) & 0xff) as u8);
    out.push(((x >> 32) & 0xff) as u8);
    out.push(((x >> 40) & 0xff) as u8);
    out.push(((x >> 48) & 0xff) as u8);
    out.push(((x >> 56) & 0xff) as u8);
    proof {
        assert(out@ =~= old(out)@ + enc_u64(x));
    }
}

proof fn lemma_enc_chars_push(p: Seq<char>, c: char)
    ensures
        enc_chars(p.push(c)) == enc_chars(p) + enc_u32(c as u32),
    decreases p.len(),
{
    if p.len() == 0 {
        assert(p.push(c) =~= seq![c]);
        assert(p.push(c).first() == c);
        assert(p.push(c).drop_first() =~= Seq::<char>::empty());
        assert(enc_chars(p.push(c)) == enc_u32(c as u32) + enc_chars(Seq::<char>::empty()));
        assert(enc_chars(p.push(c)) =~= enc_chars(p) + enc_u32(c as u32));
    } else {
        assert(p.push(c).first() == p.first());
        assert(p.push(c).drop_first() =~= p.drop_first().push(c));
        lemma_enc_chars_push(p.drop_first(), c);
        assert(enc_chars(p.push(c)) =~= enc_chars(p) + enc_u32(c as u32));
    }
}

fn push_str(out: &mut Vec<u8>, s: &str)
    ensures
        final(out)@ == old(out)@ + enc_str(s@),
{
    let n = s.unicode_len();
    push_u64(out, n as u64);
    let ghost base = out@;
    let mut i: usize = 0;
    proof {
        assert(enc_chars(s@.take(0)) =~= Seq::<u8>::empty());
        assert(out@ =~= base + enc_chars(s@.take(0)));
    }
    while i < n
        invariant
            n == s@.len(),
            0 <= i <= n,
            out@ == base + enc_chars(s@.take(i as int)),
        decreases n - i,
    {
        let c = s.get_char(i);
        let v = c as u32;
        let ghost pre = out@;
        out.push((v & 0xff) as u8);
        out.push(((v >> 8) & 0xff) as u8);
        out.push(((v >> 16) & 0xff) as u8);
        out.push(((v >> 24) & 0xff) as u8);
        i = i + 1;
        proof {
            assert(out@ =~= pre + enc_u32(v));
            assert(s@.take(i as int) =~= s@.take(i - 1).push(c));
            lemma_enc_chars_push(s@.take(i - 1), c);
            assert(out@ =~= base + enc_chars(s@.take(i as int)));
        }
    }
    proof {
        assert(s@.take(n as int) =~= s@);
        assert(out@ =~= old(out)@ + enc_str(s@));
    }
}

fn push_bytes(out: &mut Vec<u8>, v: &Vec<u8>)
    ensures
        final(out)@ == old(out)@ + enc_bytes(v@),
{
    push_u64(out, v.len() as u64);
    let ghost base = out@;
    let mut j: usize = 0;
    while j < v.len()
        invariant
            0 <= j <= v@.len(),
            out@ == base + v@.take(j as int),
        decreases v@.len() - j,
    {
        out.push(v[j]);
        j = j + 1;
        proof {
            assert(out@ =~= base + v@.take(j as int));
        }
    }
    proof {
        assert(v@.take(v@.len() as int) =~= v@);
        assert(out@ =~= old(out)@ + enc_bytes(v@));
    }
}

fn push_opt_usize(out: &mut Vec<u8>, o: &Option<usize>)
    ensures
        final(out)@ == old(out)@ + enc_opt_usize(*o),
{
    match o {
        None => {
            out.push(0u8);
            proof {
                assert(out@ =~= old(out)@ + enc_opt_usize(None));
            }
        },
        Some(x) => {
            out.push(1u8);
            push_u64(out, *x as u64);
            proof {
                assert(out@ =~= old(out)@ + enc_opt_usize(Some(*x)));
            }
        },
    }
}

/// Encodes one operation for the wire.
pub fn encode_operation(op: &QueueOperation) -> (r: Vec<u8>)
    ensures
        r@ == spec_encode_op(op@),
{
    let mut out: Vec<u8> = Vec::new();
    match op {
        QueueOperation::AddTopic(t) => {
            out.push(0u8);
            push_str(&mut out, t.as_str());
            proof {
                assert(out@ =~= seq![0u8] + enc_str(t@));
            }
        },
        QueueOperation::AddConsumer(c, t, o) => {
            out.push(1u8);
            push_str(&mut out, c.as_str());
            push_str(&mut out, t.as_str());
            push_opt_usize(&mut out, o);
            proof {
                assert(out@ =~= seq![1u8] + enc_str(c@) + enc_str(t@) + enc_opt_usize(*o));
            }
        },
        QueueOperation::AddItem(t, k, v) => {
            out.push(2u8);
            push_str(&mut out, t.as_str());
            push_str(&mut out, k.as_str());
            push_bytes(&mut out, v);
            proof {
                assert(out@ =~= seq![2u8] + enc_str(t@) + enc_str(k@) + enc_bytes(v@));
            }
        },
        QueueOperation::SetReadOffset(c, t, o) => {
            out.push(3u8);
            push_str(&mut out, c.as_str());
            push_str(&mut out, t.as_str());
            push_u64(&mut out, *o as u64);
            proof {
                assert(out@ =~= seq![3u8] + enc_str(c@) + enc_str(t@) + enc_u64(*o as u64));
            }
        },
        QueueOperation::ReadBatch(c, t, o) => {
            out.push(4u8);
            push_str(&mut out, c.as_str());
            push_str(&mut out, t.as_str());
            push_u64(&mut out, *o as u64);
            proof {
                assert(out@ =~= seq![4u8] + enc_str(c@) + enc_str(t@) + enc_u64(*o as u64));
            }
        },
    }
    out
}

/// Encodes an item batch for the wire.
pub fn encode_batch(items: &Vec<QueueItem>) -> (r: Vec<u8>)
    ensures
        r@ == spec_encode_batch(items_model(items@)),
{
    let mut out: Vec<u8> = Vec::new();
    push_u64(&mut out, items.len() as u64);
    let ghost base = out@;
    let mut j: usize = 0;
    proof {
        assert(enc_items(items_model(items@).take(0)) =~= Seq::<u8>::empty());
        assert(out@ =~= base + enc_items(items_model(items@).take(0)));
        assert(items_model(items@).len() == items@.len());
    }
    while j < items.len()
        invariant
            0 <= j <= items@.len(),
            out@ == base + enc_items(items_model(items@).take(j as int)),
        decreases items@.len() - j,
    {
        let it = &items[j];
        push_str(&mut out, it.key.as_str());
        push_bytes(&mut out, &it.value);
        push_u64(&mut out, it.created);
        j = j + 1;
        proof {
            let models = items_model(items@);
            assert(models[j - 1] == it@);
            assert(models.take(j as int) =~= models.take(j - 1).push(it@));
            lemma_enc_items_push(models.take(j - 1), it@);
            assert(out@ =~= base + enc_items(models.take(j as int)));
        }
    }
    proof {
        let models = items_model(items@);
        assert(models.take(models.len() as int) =~= models);
        assert(out@ =~= enc_u64(items@.len() as u64) + enc_items(models));
    }
    out
}

proof fn lemma_enc_items_push(p: Seq<ItemModel>, it: ItemModel)
    ensures
        enc_items(p.push(it)) == enc_items(p) + spec_encode_item(it),
    decreases p.len(),
{
    if p.len() == 0 {
        assert(p.push(it) =~= seq![it]);
        assert(p.push(it).first() == it);
        assert(p.push(it).drop_first() =~= Seq::<ItemModel>::empty());
        assert(enc_items(p.push(it)) == spec_encode_item(it) + enc_items(
            Seq::<ItemModel>::empty(),
        ));
        assert(enc_items(p.push(it)) =~= enc_items(p) + spec_encode_item(it));
    } else {
        assert(p.push(it).first() == p.first());
        assert(p.push(it).drop_first() =~= p.drop_first().push(it));
        lemma_enc_items_push(p.drop_first(), it);
        assert(enc_items(p.push(it)) =~= enc_items(p) + spec_encode_item(it));
    }
}

fn read_u64(bytes: &[u8], pos: usize) -> (r: Option<(u64, usize)>)
    requires
        pos <= bytes@.len(),
    ensures
        match r {
            Some(xp) => xp.1 <= bytes@.len() && dec_u64(bytes@.skip(pos as int)) == Some(
                (xp.0, bytes@.skip(xp.1 as int)),
            ),
            None => dec_u64(bytes@.skip(pos as int)) is None,
        },
{
    if bytes.len() - pos < 8 {
        return None;
    }
    let x = (bytes[pos] as u64) | ((bytes[pos + 1] as u64) << 8) | ((bytes[pos + 2] as u64) << 16)
        | ((bytes[pos + 3] as u64) << 24) | ((bytes[pos + 4] as u64) << 32) | ((bytes[pos
        + 5] as u64) << 40) | ((bytes[pos + 6] as u64) << 48) | ((bytes[pos + 7] as u64) << 56);
    proof {
        let s = bytes@.skip(pos as int);
        assert(s[0] == bytes@[pos as int]);
        assert(s[1] == bytes@[pos + 1]);
        assert(s[2] == bytes@[pos + 2]);
        assert(s[3] == bytes@[pos + 3]);
        assert(s[4] == bytes@[pos + 4]);
        assert(s[5] == bytes@[pos + 5]);
        assert(s[6] == bytes@[pos + 6]);
        assert(s[7] == bytes@[pos + 7]);
        assert(s.skip(8) =~= bytes@.skip(pos + 8));
    }
    Some((x, pos + 8))
}

fn read_usize(bytes: &[u8], pos: usize) -> (r: Option<(usize, usize)>)
    requires
        pos <= bytes@.len(),
    ensures
        match r {
            Some(xp) => xp.1 <= bytes@.len() && dec_usize(bytes@.skip(pos as int)) == Some(
                (xp.0, bytes@.skip(xp.1 as int)),
            ),
            None => dec_usize(bytes@.skip(pos as int)) is None,
        },
{
    match read_u64(bytes, pos) {
        Some((x, p2)) => {
            if x <= usize::MAX as u64 {
                Some((x as usize, p2))
            } else {
                None
            }
        },
        None => None,
    }
}

fn read_str(bytes: &[u8], pos: usize) -> (r: Option<(String, usize)>)
    requires
        pos <= bytes@.len(),
    ensures
        match r {
            Some(sp) => sp.1 <= bytes@.len() && dec_str(bytes@.skip(pos as int)) == Some(
                (sp.0@, bytes@.skip(sp.1 as int)),
            ),
            None => dec_str(bytes@.skip(pos as int)) is None,
        },
{
    let np = read_u64(bytes, pos);
    match np {
        None => None,
        Some((n, start)) => {
            let mut out = String::new();
            let mut p: usize = start;
            let mut j: u64 = 0;
            proof {
                match dec_chars(bytes@.skip(p as int), (n - j) as nat) {
                    Some(cr) => {
                        assert(out@ + cr.0 =~= cr.0);
                    },
                    None => {},
                }
            }
            while j < n
                invariant
                    j <= n,
                    pos <= bytes@.len(),
                    p <= bytes@.len(),
                    dec_str(bytes@.skip(pos as int)) == match dec_chars(
                        bytes@.skip(p as int),
                        (n - j) as nat,
                    ) {
                        Some(cr) => Some((out@ + cr.0, cr.1)),
                        None => None,
                    },
                decreases n - j,
            {
                if bytes.len() - p < 4 {
                    return None;
                }
                let v = (bytes[p] as u32) | ((bytes[p + 1] as u32) << 8) | ((bytes[p
                    + 2] as u32) << 16) | ((bytes[p + 3] as u32) << 24);
                proof {
                    let s = bytes@.skip(p as int);
                    assert(s[0] == bytes@[p as int]);
                    assert(s[1] == bytes@[p + 1]);
                    assert(s[2] == bytes@[p + 2]);
                    assert(s[3] == bytes@[p + 3]);
                    assert(v == u32_of_bytes(s[0], s[1], s[2], s[3]));
                    assert(s.skip(4) =~= bytes@.skip(p + 4));
                }
                match char_from_u32(v) {
                    Some(c) => {
                        let ghost pre_out = out@;
                        let ghost p0 = p as int;
                        let ghost j0 = j;
                        string_push(&mut out, c);
                        p = p + 4;
                        j = j + 1;
                        proof {
                            vstd::utf8::char_u32_cast(c, v);
                            assert((v as char) == c);
                            assert(bytes@.skip(p as int) =~= bytes@.skip(p0).skip(4));
                            match dec_chars(bytes@.skip(p as int), (n - j) as nat) {
                                Some(cr) => {
                                    assert(dec_chars(bytes@.skip(p0), (n - j0) as nat) == Some(
                                        (seq![c] + cr.0, cr.1),
                                    ));
                                    assert(pre_out + (seq![c] + cr.0) =~= out@ + cr.0);
                                },
                                None => {
                                    assert(dec_chars(bytes@.skip(p0), (n - j0) as nat) is None);
                                },
                            }
                        }
                    },
                    None => {
                        return None;
                    },
                }
            }
            proof {
                assert(dec_chars(bytes@.skip(p as int), 0) == Some(
                    (Seq::<char>::empty(), bytes@.skip(p as int)),
                ));
                assert(out@ + Seq::<char>::empty() =~= out@);
            }
            Some((out, p))
        },
    }
}

fn read_bytes_field(bytes: &[u8], pos: usize) -> (r: Option<(Vec<u8>, usize)>)
    requires
        pos <= bytes@.len(),
    ensures
        match r {
            Some(vp) => vp.1 <= bytes@.len() && dec_bytes(bytes@.skip(pos as int)) == Some(
                (vp.0@, bytes@.skip(vp.1 as int)),
            ),
            None => dec_bytes(bytes@.skip(pos as int)) is None,
        },
{
    match read_u64(bytes, pos) {
        None => None,
        Some((n, start)) => {
            if n > (bytes.len() - start) as u64 {
                return None;
            }
            let count = n as usize;
            let mut out: Vec<u8> = Vec::new();
            let mut j: usize = 0;
            while j < count
                invariant
                    0 <= j <= count,
                    start + count <= bytes@.len(),
                    bytes@.len() <= usize::MAX,
                    out@ == bytes@.skip(start as int).take(j as int),
                decreases count - j,
            {
                out.push(bytes[start + j]);
                j = j + 1;
                proof {
                    assert(out@ =~= bytes@.skip(start as int).take(j as int));
                }
            }
            proof {
                assert(bytes@.skip(start as int).skip(count as int) =~= bytes@.skip(
                    start + count,
                ));
            }
            Some((out, start + count))
        },
    }
}

fn read_opt_usize(bytes: &[u8], pos: usize) -> (r: Option<(Option<usize>, usize)>)
    requires
        pos <= bytes@.len(),
    ensures
        match r {
            Some(op) => op.1 <= bytes@.len() && dec_opt_usize(bytes@.skip(pos as int)) == Some(
                (op.0, bytes@.skip(op.1 as int)),
            ),
            None => dec_opt_usize(bytes@.skip(pos as int)) is None,
        },
{
    if bytes.len() - pos < 1 {
        return None;
    }
    let flag = bytes[pos];
    proof {
        assert(bytes@.skip(pos as int)[0] == bytes@[pos as int]);
        assert(bytes@.skip(pos as int).skip(1) =~= bytes@.skip(pos + 1));
    }
    if flag == 0 {
        Some((None, pos + 1))
    } else if flag == 1 {
        match read_usize(bytes, pos + 1) {
            Some((x, p2)) => Some((Some(x), p2)),
            None => None,
        }
    } else {
        None
    }
}

/// Decodes one operation from a wire message; `None` for any malformed
/// or incompletely consumed message.
pub fn decode_operation(bytes: &[u8]) -> (r: Option<QueueOperation>)
    ensures
        match r {
            Some(op) => spec_decode_op(bytes@) == Some(op@),
            None => spec_decode_op(bytes@) is None,
        },
{
    if bytes.len() == 0 {
        return None;
    }
    let tag = bytes[0];
    let pos: usize = 1;
    proof {
        assert(bytes@.skip(1) =~= bytes@.skip(pos as int));
    }
    if tag == 0 {
        match read_str(bytes, pos) {
            Some((t, p2)) => {
                if p2 == bytes.len() {
                    Some(QueueOperation::AddTopic(t))
                } else {
                    None
                }
            },
            None => None,
        }
    } else if tag == 1 {
        match read_str(bytes, pos) {
            Some((c, p1)) => match read_str(bytes, p1) {
                Some((t, p2)) => match read_opt_usize(bytes, p2) {
                    Some((o, p3)) => {
                        if p3 == bytes.len() {
                            Some(QueueOperation::AddConsumer(c, t, o))
                        } else {
                            None
                        }
                    },
                    None => None,
                },
                None => None,
            },
            None => None,
        }
    } else if tag == 2 {
        match read_str(bytes, pos) {
            Some((t, p1)) => match read_str(bytes, p1) {
                Some((k, p2)) => match read_bytes_field(bytes, p2) {
                    Some((v, p3)) => {
                        if p3 == bytes.len() {
                            Some(QueueOperation::AddItem(t, k, v))
                        } else {
                            None
                        }
                    },
                    None => None,
                },
                None => None,
            },
            None => None,
        }
    } else if tag == 3 {
        match read_str(bytes, pos) {
            Some((c, p1)) => match read_str(bytes, p1) {
                Some((t, p2)) => match read_usize(bytes, p2) {
                    Some((o, p3)) => {
                        if p3 == bytes.len() {
                            Some(QueueOperation::SetReadOffset(c, t, o))
                        } else {
                            None
                        }
                    },
                    None => None,
                },
                None => None,
            },
            None => None,
        }
    } else if tag == 4 {
        match read_str(bytes, pos) {
            Some((c, p1)) => match read_str(bytes, p1) {
                Some((t, p2)) => match read_usize(bytes, p2) {
                    Some((o, p3)) => {
                        if p3 == bytes.len() {
                            Some(QueueOperation::ReadBatch(c, t, o))
                        } else {
                            None
                        }
                    },
                    None => None,
                },
                None => None,
            },
            None => None,
        }
    } else {
        None
    }
}

fn read_item(bytes: &[u8], pos: usize) -> (r: Option<(QueueItem, usize)>)
    requires
        pos <= bytes@.len(),
    ensures
        match r {
            Some(ip) => ip.1 <= bytes@.len() && dec_item(bytes@.skip(pos as int)) == Some(
                (ip.0@, bytes@.skip(ip.1 as int)),
            ),
            None => dec_item(bytes@.skip(pos as int)) is None,
        },
{
    match read_str(bytes, pos) {
        Some((key, p1)) => match read_bytes_field(bytes, p1) {
            Some((value, p2)) => match read_u64(bytes, p2) {
                Some((created, p3)) => Some((QueueItem { key, value, created }, p3)),
                None => None,
            },
            None => None,
        },
        None => None,
    }
}

/// Decodes an item batch from a wire message; `None` for any malformed
/// or incompletely consumed message.
pub fn decode_batch(bytes: &[u8]) -> (r: Option<Vec<QueueItem>>)
    ensures
        match r {
            Some(items) => spec_decode_batch(bytes@) == Some(items_model(items@)),
            None => spec_decode_batch(bytes@) is None,
        },
{
    proof {
        assert(bytes@.skip(0) =~= bytes@);
    }
    match read_u64(bytes, 0) {
        None => None,
        Some((n, start)) => {
            let mut out: Vec<QueueItem> = Vec::new();
            let mut p: usize = start;
            let mut j: u64 = 0;
            proof {
                assert(items_model(out@) =~= Seq::<ItemModel>::empty());
                match dec_items(bytes@.skip(p as int), (n - j) as nat) {
                    Some(ir) => {
                        assert(items_model(out@) + ir.0 =~= ir.0);
                    },
                    None => {},
                }
            }
            while j < n
                invariant
                    j <= n,
                    p <= bytes@.len(),
                    dec_u64(bytes@) == Some((n, bytes@.skip(start as int))),
                    dec_items(bytes@.skip(start as int), n as nat) == match dec_items(
                        bytes@.skip(p as int),
                        (n - j) as nat,
                    ) {
                        Some(ir) => Some((items_model(out@) + ir.0, ir.1)),
                        None => None,
                    },
                decreases n - j,
            {
                match read_item(bytes, p) {
                    Some((it, p2)) => {
                        let ghost pre_models = items_model(out@);
                        let ghost p0 = p as int;
                        let ghost j0 = j;
                        let ghost itm = it@;
                        out.push(it);
                        p = p2;
                        j = j + 1;
                        proof {
                            assert(items_model(out@) =~= pre_models.push(itm));
                            match dec_items(bytes@.skip(p as int), (n - j) as nat) {
                                Some(ir) => {
                                    assert(dec_items(bytes@.skip(p0), (n - j0) as nat) == Some(
                                        (seq![itm] + ir.0, ir.1),
                                    ));
                                    assert(pre_models + (seq![itm] + ir.0) =~= items_model(out@)
                                        + ir.0);
                                },
                                None => {
                                    assert(dec_items(bytes@.skip(p0), (n - j0) as nat) is None);
                                },
                            }
                        }
                    },
                    None => {
                        return None;
                    },
                }
            }
            proof {
                assert(dec_items(bytes@.skip(p as int), 0) == Some(
                    (Seq::<ItemModel>::empty(), bytes@.skip(p as int)),
                ));
                assert(items_model(out@) + Seq::<ItemModel>::empty() =~= items_model(out@));
                assert(bytes@.skip(0) =~= bytes@);
            }
            if p == bytes.len() {
                Some(out)
            } else {
                None
            }
        },
    }
}

proof fn lemma_u64_round_trip(x: u64)
    ensures
        u64_of_bytes(
            (x & 0xff) as u8,
            ((x >> 8) & 0xff) as u8,
            ((x >> 16) & 0xff) as u8,
            ((x >> 24) & 0xff) as u8,
            ((x >> 32) & 0xff) as u8,
            ((x >> 40) & 0xff) as u8,
            ((x >> 48) & 0xff) as u8,
            ((x >> 56) & 0xff) as u8,
        ) == x,
{
    assert((((x & 0xff) as u8) as u64) | ((((x >> 8) & 0xff) as u8) as u64) << 8 | ((((x >> 16)
        & 0xff) as u8) as u64) << 16 | ((((x >> 24) & 0xff) as u8) as u64) << 24 | ((((x >> 32)
        & 0xff) as u8) as u64) << 32 | ((((x >> 40) & 0xff) as u8) as u64) << 40 | ((((x >> 48)
        & 0xff) as u8) as u64) << 48 | ((((x >> 56) & 0xff) as u8) as u64) << 56 == x)
        by (bit_vector);
}

proof fn lemma_u32_round_trip(x: u32)
    ensures
        u32_of_bytes(
            (x & 0xff) as u8,
            ((x >> 8) & 0xff) as u8,
            ((x >> 16) & 0xff) as u8,
            ((x >> 24) & 0xff) as u8,
        ) == x,
{
    assert((((x & 0xff) as u8) as u32) | ((((x >> 8) & 0xff) as u8) as u32) << 8 | ((((x >> 16)
        & 0xff) as u8) as u32) << 16 | ((((x >> 24) & 0xff) as u8) as u32) << 24 == x)
        by (bit_vector);
}

proof fn lemma_dec_u64_enc(x: u64, rest: Seq<u8>)
    ensures
        dec_u64(enc_u64(x) + rest) == Some((x, rest)),
{
    let s = enc_u64(x) + rest;
    assert(s[0] == (x & 0xff) as u8);
    assert(s[1] == ((x >> 8) & 0xff) as u8);
    assert(s[2] == ((x >> 16) & 0xff) as u8);
    assert(s[3] == ((x >> 24) & 0xff) as u8);
    assert(s[4] == ((x >> 32) & 0xff) as u8);
    assert(s[5] == ((x >> 40) & 0xff) as u8);
    assert(s[6] == ((x >> 48) & 0xff) as u8);
    assert(s[7] == ((x >> 56) & 0xff) as u8);
    lemma_u64_round_trip(x);
    assert(s.skip(8) =~= rest);
}

proof fn lemma_dec_chars_enc(s: Seq<char>, rest: Seq<u8>)
    ensures
        dec_chars(enc_chars(s) + rest, s.len()) == Some((s, rest)),
    decreases s.len(),
{
    if s.len() == 0 {
        assert(enc_chars(s) + rest =~= rest);
    } else {
        let c = s.first();
        let v = c as u32;
        let buf = enc_chars(s) + rest;
        assert(enc_chars(s) == enc_u32(v) + enc_chars(s.drop_first()));
        assert(buf[0] == (v & 0xff) as u8);
        assert(buf[1] == ((v >> 8) & 0xff) as u8);
        assert(buf[2] == ((v >> 16) & 0xff) as u8);
        assert(buf[3] == ((v >> 24) & 0xff) as u8);
        lemma_u32_round_trip(v);
        vstd::utf8::char_is_scalar(c);
        vstd::utf8::char_u32_cast(c, v);
        assert(valid_unicode_scalar(v));
        assert(buf.skip(4) =~= enc_chars(s.drop_first()) + rest);
        lemma_dec_chars_enc(s.drop_first(), rest);
        assert((v as char) == c);
        assert(seq![c] + s.drop_first() =~= s);
    }
}

proof fn lemma_dec_str_enc(s: Seq<char>, rest: Seq<u8>)
    requires
        s.len() <= u64::MAX,
    ensures
        dec_str(enc_str(s) + rest) == Some((s, rest)),
{
    assert(enc_str(s) + rest =~= enc_u64(s.len() as u64) + (enc_chars(s) + rest));
    lemma_dec_u64_enc(s.len() as u64, enc_chars(s) + rest);
    lemma_dec_chars_enc(s, rest);
    assert((s.len() as u64) as nat == s.len());
}

proof fn lemma_dec_bytes_enc(v: Seq<u8>, rest: Seq<u8>)
    requires
        v.len() <= u64::MAX,
    ensures
        dec_bytes(enc_bytes(v) + rest) == Some((v, rest)),
{
    assert(enc_bytes(v) + rest =~= enc_u64(v.len() as u64) + (v + rest));
    lemma_dec_u64_enc(v.len() as u64, v + rest);
    assert((v + rest).take(v.len() as int) =~= v);
    assert((v + rest).skip(v.len() as int) =~= rest);
}

proof fn lemma_dec_usize_enc(o: usize, rest: Seq<u8>)
    ensures
        dec_usize(enc_u64(o as u64) + rest) == Some((o, rest)),
{
    lemma_dec_u64_enc(o as u64, rest);
}

proof fn lemma_dec_opt_enc(o: Option<usize>, rest: Seq<u8>)
    ensures
        dec_opt_usize(enc_opt_usize(o) + rest) == Some((o, rest)),
{
    let s = enc_opt_usize(o) + rest;
    match o {
        None => {
            assert(s[0] == 0u8);
            assert(s.skip(1) =~= rest);
        },
        Some(x) => {
            assert(s[0] == 1u8);
            assert(s.skip(1) =~= enc_u64(x as u64) + rest);
            lemma_dec_usize_enc(x, rest);
        },
    }
}

/// Whether an operation's fields fit the wire's length words; every
/// operation a process can hold does.
pub open spec fn op_fits(op: OpModel) -> bool {
    match op {
        OpModel::AddTopic(t) => t.len() <= u64::MAX,
        OpModel::AddConsumer(c, t, o) => c.len() <= u64::MAX && t.len() <= u64::MAX,
        OpModel::AddItem(t, k, v) => t.len() <= u64::MAX && k.len() <= u64::MAX && v.len()
            <= u64::MAX,
        OpModel::SetReadOffset(c, t, o) => c.len() <= u64::MAX && t.len() <= u64::MAX,
        OpModel::ReadBatch(c, t, o) => c.len() <= u64::MAX && t.len() <= u64::MAX,
    }
}

#[verifier::spinoff_prover]
#[verifier::rlimit(100)]
proof fn lemma_rt_add_topic(t: Seq<char>)
    requires
        t.len() <= u64::MAX,
    ensures
        spec_decode_op(spec_encode_op(OpModel::AddTopic(t))) == Some(OpModel::AddTopic(t)),
{
    let s = spec_encode_op(OpModel::AddTopic(t));
    let empty = Seq::<u8>::empty();
    assert(s[0] == 0u8);
    assert(s.skip(1) =~= enc_str(t) + empty);
    lemma_dec_str_enc(t, empty);
}

#[verifier::spinoff_prover]
#[verifier::rlimit(100)]
proof fn lemma_rt_add_consumer(c: Seq<char>, t: Seq<char>, o: Option<usize>)
    requires
        c.len() <= u64::MAX,
        t.len() <= u64::MAX,
    ensures
        spec_decode_op(spec_encode_op(OpModel::AddConsumer(c, t, o))) == Some(
            OpModel::AddConsumer(c, t, o),
        ),
{
    let s = spec_encode_op(OpModel::AddConsumer(c, t, o));
    let empty = Seq::<u8>::empty();
    assert(s[0] == 1u8);
    assert(s.skip(1) =~= enc_str(c) + (enc_str(t) + (enc_opt_usize(o) + empty)));
    lemma_dec_str_enc(c, enc_str(t) + (enc_opt_usize(o) + empty));
    lemma_dec_str_enc(t, enc_opt_usize(o) + empty);
    lemma_dec_opt_enc(o, empty);
}

#[verifier::spinoff_prover]
#[verifier::rlimit(100)]
proof fn lemma_rt_add_item(t: Seq<char>, k: Seq<char>, v: Seq<u8>)
    requires
        t.len() <= u64::MAX,
        k.len() <= u64::MAX,
        v.len() <= u64::MAX,
    ensures
        spec_decode_op(spec_encode_op(OpModel::AddItem(t, k, v))) == Some(
            OpModel::AddItem(t, k, v),
        ),
{
    let s = spec_encode_op(OpModel::AddItem(t, k, v));
    let empty = Seq::<u8>::empty();
    assert(s[0] == 2u8);
    assert(s.skip(1) =~= enc_str(t) + (enc_str(k) + (enc_bytes(v) + empty)));
    lemma_dec_str_enc(t, enc_str(k) + (enc_bytes(v) + empty));
    lemma_dec_str_enc(k, enc_bytes(v) + empty);
    lemma_dec_bytes_enc(v, empty);
}

#[verifier::spinoff_prover]
#[verifier::rlimit(100)]
proof fn lemma_rt_set_read_offset(c: Seq<char>, t: Seq<char>, o: usize)
    requires
        c.len() <= u64::MAX,
        t.len() <= u64::MAX,
    ensures
        spec_decode_op(spec_encode_op(OpModel::SetReadOffset(c, t, o))) == Some(
            OpModel::SetReadOffset(c, t, o),
        ),
{
    let s = spec_encode_op(OpModel::SetReadOffset(c, t, o));
    let empty = Seq::<u8>::empty();
    assert(s[0] == 3u8);
    assert(s.skip(1) =~= enc_str(c) + (enc_str(t) + (enc_u64(o as u64) + empty)));
    lemma_dec_str_enc(c, enc_str(t) + (enc_u64(o as u64) + empty));
    lemma_dec_str_enc(t, enc_u64(o as u64) + empty);
    lemma_dec_usize_enc(o, empty);
}

#[verifier::spinoff_prover]
#[verifier::rlimit(100)]
proof fn lemma_rt_read_batch(c: Seq<char>, t: Seq<char>, o: usize)
    requires
        c.len() <= u64::MAX,
        t.len() <= u64::MAX,
    ensures
        spec_decode_op(spec_encode_op(OpModel::ReadBatch(c, t, o))) == Some(
            OpModel::ReadBatch(c, t, o),
        ),
{
    let s = spec_encode_op(OpModel::ReadBatch(c, t, o));
    let empty = Seq::<u8>::empty();
    assert(s[0] == 4u8);
    assert(s.skip(1) =~= enc_str(c) + (enc_str(t) + (enc_u64(o as u64) + empty)));
    lemma_dec_str_enc(c, enc_str(t) + (enc_u64(o as u64) + empty));
    lemma_dec_str_enc(t, enc_u64(o as u64) + empty);
    lemma_dec_usize_enc(o, empty);
}

/// Law: decoding an encoded operation gives the operation back, for
/// every variant, whenever its fields fit the wire's length words.
pub proof fn lemma_operation_round_trip(op: OpModel)
    requires
        op_fits(op),
    ensures
        spec_decode_op(spec_encode_op(op)) == Some(op),
{
    match op {
        OpModel::AddTopic(t) => lemma_rt_add_topic(t),
        OpModel::AddConsumer(c, t, o) => lemma_rt_add_consumer(c, t, o),
        OpModel::AddItem(t, k, v) => lemma_rt_add_item(t, k, v),
        OpModel::SetReadOffset(c, t, o) => lemma_rt_set_read_offset(c, t, o),
        OpModel::ReadBatch(c, t, o) => lemma_rt_read_batch(c, t, o),
    }
}

/// Whether an item's fields fit the wire's length words.
pub open spec fn item_fits(it: ItemModel) -> bool {
    it.key.len() <= u64::MAX && it.value.len() <= u64::MAX
}

proof fn lemma_dec_item_enc(it: ItemModel, rest: Seq<u8>)
    requires
        item_fits(it),
    ensures
        dec_item(spec_encode_item(it) + rest) == Some((it, rest)),
{
    assert(spec_encode_item(it) + rest =~= enc_str(it.key) + (enc_bytes(it.value) + (enc_u64(
        it.created,
    ) + rest)));
    lemma_dec_str_enc(it.key, enc_bytes(it.value) + (enc_u64(it.created) + rest));
    lemma_dec_bytes_enc(it.value, enc_u64(it.created) + rest);
    lemma_dec_u64_enc(it.created, rest);
    assert(item_model_at(it.key, it.value, it.created) == it);
}

#[verifier::spinoff_prover]
#[verifier::rlimit(100)]
proof fn lemma_dec_items_enc(items: Seq<ItemModel>, rest: Seq<u8>)
    requires
        forall|i: int| 0 <= i < items.len() ==> item_fits(#[trigger] items[i]),
    ensures
        dec_items(enc_items(items) + rest, items.len()) == Some((items, rest)),
    decreases items.len(),
{
    if items.len() == 0 {
        assert(enc_items(items) + rest =~= rest);
    } else {
        let it = items.first();
        assert(enc_items(items) + rest =~= spec_encode_item(it) + (enc_items(items.drop_first())
            + rest));
        lemma_dec_item_enc(it, enc_items(items.drop_first()) + rest);
        assert(forall|i: int|
            0 <= i < items.drop_first().len() ==> item_fits(#[trigger] items.drop_first()[i]));
        lemma_dec_items_enc(items.drop_first(), rest);
        assert(seq![it] + items.drop_first() =~= items);
    }
}

/// Law: decoding an encoded batch gives the batch back, whenever the
/// count and each item's fields fit the wire's length words.
pub proof fn lemma_batch_round_trip(items: Seq<ItemModel>)
    requires
        items.len() <= u64::MAX,
        forall|i: int| 0 <= i < items.len() ==> item_fits(#[trigger] items[i]),
    ensures
        spec_decode_batch(spec_encode_batch(items)) == Some(items),
{
    let empty = Seq::<u8>::empty();
    assert(spec_encode_batch(items) =~= enc_u64(items.len() as u64) + (enc_items(items) + empty));
    lemma_dec_u64_enc(items.len() as u64, enc_items(items) + empty);
    lemma_dec_items_enc(items, empty);
    assert((items.len() as u64) as nat == items.len());
}

} // verus!
