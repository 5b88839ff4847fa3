use crate::codec::string_push;
use crate::queue::{OpModel, QueueOperation};
use vstd::prelude::*;

verus! {

/// The comma-separated fields of a line: split on every comma, empty
/// fields kept; a line with no comma is one field.
pub open spec fn spec_fields(s: Seq<char>) -> Seq<Seq<char>>
    decreases s.len(),
{
    if s.len() == 0 {
        seq![Seq::empty()]
    } else if s.last() == ',' {
        spec_fields(s.drop_last()).push(Seq::empty())
    } else {
        let r = spec_fields(s.drop_last());
        r.update(r.len() - 1, r.last().push(s.last()))
    }
}

pub proof fn lemma_fields_nonempty(s: Seq<char>)
    ensures
        spec_fields(s).len() >= 1,
    decreases s.len(),
{
    if s.len() > 0 {
        lemma_fields_nonempty(s.drop_last());
    }
}

/// Splits a line on commas into its fields.
pub fn split_fields(s: &str) -> (r: Vec<String>)
    ensures
        r.deep_view() == spec_fields(s@),
        r@.len() >= 1,
{
    let n = s.unicode_len();
    let mut fields: Vec<String> = Vec::new();
    let mut cur = String::new();
    let mut i: usize = 0;
    proof {
        assert(spec_fields(s@.take(0)) =~~= fields.deep_view().push(cur@));
    }
    while i < n
        invariant
            n == s@.len(),
            0 <= i <= n,
            spec_fields(s@.take(i as int)) == fields.deep_view().push(cur@),
        decreases n - i,
    {
        let c = s.get_char(i);
        i = i + 1;
        proof {
            assert(s@.take(i as int) =~= s@.take(i - 1).push(c));
            assert(s@.take(i as int).drop_last() =~= s@.take(i - 1));
        }
        if c == ',' {
            let ghost pre_fields = fields.deep_view();
            let ghost pre_cur = cur@;
            fields.push(cur);
            cur = String::new();
            proof {
                assert(fields.deep_view() =~~= pre_fields.push(pre_cur));
                assert(spec_fields(s@.take(i as int)) =~~= fields.deep_view().push(cur@));
            }
        } else {
            let ghost pre_cur = cur@;
            string_push(&mut cur, c);
            proof {
                let r = spec_fields(s@.take(i - 1));
                assert(r.last() == pre_cur);
                assert(r.len() - 1 == fields.deep_view().len());
                assert(spec_fields(s@.take(i as int)) =~~= fields.deep_view().push(cur@));
            }
        }
    }
    proof {
        assert(s@.take(n as int) =~= s@);
    }
    fields.push(cur);
    proof {
        lemma_fields_nonempty(s@);
    }
    fields
}

/// Whether every character of `s` is a decimal digit.
pub open spec fn all_digits(s: Seq<char>) -> bool {
    forall|i: int| 0 <= i < s.len() ==> 48 <= #[trigger] (s[i] as int) && s[i] as int <= 57
}

/// A nonempty string of decimal digits.
pub open spec fn is_digits(s: Seq<char>) -> bool {
    s.len() > 0 && all_digits(s)
}

/// The numeric value of a digit string, most significant digit first.
pub open spec fn digits_val(s: Seq<char>) -> int
    decreases s.len(),
{
    if s.len() == 0 {
        0
    } else {
        digits_val(s.drop_last()) * 10 + (s.last() as int - 48)
    }
}

proof fn lemma_digits_val_nonneg(s: Seq<char>)
    requires
        all_digits(s),
    ensures
        digits_val(s) >= 0,
    decreases s.len(),
{
    if s.len() > 0 {
        assert(all_digits(s.drop_last()));
        lemma_digits_val_nonneg(s.drop_last());
    }
}

proof fn lemma_digits_val_prefix(s: Seq<char>, i: int)
    requires
        all_digits(s),
        0 <= i <= s.len(),
    ensures
        digits_val(s.take(i)) <= digits_val(s),
    decreases s.len() - i,
{
    if i < s.len() {
        assert(all_digits(s.take(i + 1)));
        assert(s.take(i + 1).drop_last() =~= s.take(i));
        lemma_digits_val_nonneg(s.take(i));
        assert(digits_val(s.take(i + 1)) == digits_val(s.take(i)) * 10 + (s[i] as int - 48));
        lemma_digits_val_prefix(s, i + 1);
    } else {
        assert(s.take(i) =~= s);
    }
}

/// Parses a decimal offset: `Some` exactly for a nonempty all-digit
/// string whose value fits the machine's word.
pub fn parse_usize(s: &str) -> (r: Option<usize>)
    ensures
        match r {
            Some(v) => is_digits(s@) && digits_val(s@) == v,
            None => !(is_digits(s@) && digits_val(s@) <= usize::MAX),
        },
{
    let n = s.unicode_len();
    if n == 0 {
        return None;
    }
    let mut acc: usize = 0;
    let mut i: usize = 0;
    while i < n
        invariant
            n == s@.len(),
            n > 0,
            0 <= i <= n,
            forall|j: int| 0 <= j < i ==> 48 <= #[trigger] (s@[j] as int) && s@[j] as int <= 57,
            acc == digits_val(s@.take(i as int)),
        decreases n - i,
    {
        let c = s.get_char(i);
        let d = c as u32;
        if d < 48 || d > 57 {
            return None;
        }
        let digit = (d - 48) as usize;
        let next = match acc.checked_mul(10) {
            Some(x) => x.checked_add(digit),
            None => None,
        };
        proof {
            assert(s@.take(i + 1).drop_last() =~= s@.take(i as int));
            assert(digits_val(s@.take(i + 1)) == acc * 10 + digit);
        }
        match next {
            Some(y) => {
                acc = y;
                i = i + 1;
            },
            None => {
                proof {
                    if is_digits(s@) {
                        lemma_digits_val_prefix(s@, i + 1);
                    }
                }
                return None;
            },
        }
    }
    proof {
        assert(s@.take(n as int) =~= s@);
    }
    Some(acc)
}

/// Compares a string with an expected text.
pub fn string_eq(a: &String, b: &str) -> (r: bool)
    ensures
        r == (a@ == b@),
{
    let bs = String::from_str(b);
    *a == bs
}

/// The operation a client line names in the textual shorthand, over the
/// line's comma-separated fields: `add-topic,<topic>`;
/// `add-consumer,<consumer>,<topic>[,<offset>]`;
/// `add-item,<topic>,<key>,<value>` with the value taken as text bytes;
/// `read-batch,<consumer>,<topic>,<offset>`. Anything else, a field
/// short, or a malformed offset names no operation.
pub open spec fn spec_convert(s: Seq<char>) -> Option<OpModel> {
    let fields = spec_fields(s);
    if fields[0] == "add-topic"@ {
        if fields.len() >= 2 {
            Some(OpModel::AddTopic(fields[1]))
        } else {
            None
        }
    } else if fields[0] == "add-consumer"@ {
        if fields.len() == 3 {
            Some(OpModel::AddConsumer(fields[1], fields[2], None))
        } else if fields.len() >= 4 {
            if is_digits(fields[3]) && digits_val(fields[3]) <= usize::MAX {
                Some(
                    OpModel::AddConsumer(
                        fields[1],
                        fields[2],
                        Some(digits_val(fields[3]) as usize),
                    ),
                )
            } else {
                None
            }
        } else {
            None
        }
    } else if fields[0] == "add-item"@ {
        if fields.len() >= 4 {
            Some(OpModel::AddItem(fields[1], fields[2], vstd::utf8::encode_utf8(fields[3])))
        } else {
            None
        }
    } else if fields[0] == "read-batch"@ {
        if fields.len() >= 4 && is_digits(fields[3]) && digits_val(fields[3]) <= usize::MAX {
            Some(OpModel::ReadBatch(fields[1], fields[2], digits_val(fields[3]) as usize))
        } else {
            None
        }
    } else {
        None
    }
}

/// The concatenation of the fields from position `i` on, without
/// separators.
pub open spec fn concat_from(fields: Seq<Seq<char>>, i: int) -> Seq<char>
    decreases fields.len() - i,
{
    if i < 0 || i >= fields.len() {
        Seq::empty()
    } else {
        fields[i] + concat_from(fields, i + 1)
    }
}

/// The operation a line names in the capitalized text form, over its
/// comma-separated fields: `AddTopic,<topic>`;
/// `AddConsumer,<consumer>,<topic>,<offset>` with a malformed offset
/// read as absent; `AddItem,<topic>,<key>,<value...>` with every
/// remaining field joined, separators dropped, as the value's text
/// bytes; `SetReadOffset,<consumer>,<topic>,<offset>`;
/// `ReadBatch,<consumer>,<topic>,<offset>`. Anything else, a field
/// short, or an offset that must parse and does not, names no operation.
pub open spec fn spec_operation_text(s: Seq<char>) -> Option<OpModel> {
    let fields = spec_fields(s);
    if fields[0] == "AddTopic"@ {
        if fields.len() >= 2 {
            Some(OpModel::AddTopic(fields[1]))
        } else {
            None
        }
    } else if fields[0] == "AddConsumer"@ {
        if fields.len() >= 4 {
            if is_digits(fields[3]) && digits_val(fields[3]) <= usize::MAX {
                Some(
                    OpModel::AddConsumer(
                        fields[1],
                        fields[2],
                        Some(digits_val(fields[3]) as usize),
                    ),
                )
            } else {
                Some(OpModel::AddConsumer(fields[1], fields[2], None))
            }
        } else {
            None
        }
    } else if fields[0] == "AddItem"@ {
        if fields.len() >= 3 {
            Some(
                OpModel::AddItem(
                    fields[1],
                    fields[2],
                    vstd::utf8::encode_utf8(concat_from(fields, 3)),
                ),
            )
        } else {
            None
        }
    } else if fields[0] == "SetReadOffset"@ {
        if fields.len() >= 4 && is_digits(fields[3]) && digits_val(fields[3]) <= usize::MAX {
            Some(OpModel::SetReadOffset(fields[1], fields[2], digits_val(fields[3]) as usize))
        } else {
            None
        }
    } else if fields[0] == "ReadBatch"@ {
        if fields.len() >= 4 && is_digits(fields[3]) && digits_val(fields[3]) <= usize::MAX {
            Some(OpModel::ReadBatch(fields[1], fields[2], digits_val(fields[3]) as usize))
        } else {
            None
        }
    } else {
        None
    }
}

fn join_fields_from(fields: &Vec<String>, start: usize) -> (r: String)
    ensures
        r@ == concat_from(fields.deep_view(), start as int),
{
    let mut acc = String::new();
    let mut i: usize = start;
    proof {
        assert(acc@ + concat_from(fields.deep_view(), i as int) =~= concat_from(
            fields.deep_view(),
            start as int,
        ));
    }
    while i < fields.len()
        invariant
            start <= i,
            i <= fields@.len() || i == start,
            fields.deep_view().len() == fields@.len(),
            acc@ + concat_from(fields.deep_view(), i as int) == concat_from(
                fields.deep_view(),
                start as int,
            ),
        decreases fields@.len() - i,
    {
        let ghost pre = acc@;
        acc.append(fields[i].as_str());
        i = i + 1;
        proof {
            let dv = fields.deep_view();
            assert(dv[i - 1] == fields@[i - 1]@);
            assert(concat_from(dv, i - 1) == dv[i - 1] + concat_from(dv, i as int));
            assert(pre + (dv[i - 1] + concat_from(dv, i as int)) =~= acc@ + concat_from(
                dv,
                i as int,
            ));
        }
    }
    proof {
        assert(concat_from(fields.deep_view(), i as int) =~= Seq::<char>::empty());
        assert(acc@ + Seq::<char>::empty() =~= acc@);
    }
    acc
}

/// Turns one line of the capitalized text form into the operation it
/// names; `None` for any line that names none.
pub fn operation_from_text(line: &str) -> (r: Option<QueueOperation>)
    ensures
        match r {
            Some(op) => spec_operation_text(line@) == Some(op@),
            None => spec_operation_text(line@) is None,
        },
{
    let fields = split_fields(line);
    proof {
        assert(fields.deep_view().len() == fields@.len());
    }
    if string_eq(&fields[0], "AddTopic") {
        if fields.len() >= 2 {
            Some(QueueOperation::AddTopic(fields[1].clone()))
        } else {
            None
        }
    } else if string_eq(&fields[0], "AddConsumer") {
        if fields.len() >= 4 {
            let off = parse_usize(fields[3].as_str());
            Some(QueueOperation::AddConsumer(fields[1].clone(), fields[2].clone(), off))
        } else {
            None
        }
    } else if string_eq(&fields[0], "AddItem") {
        if fields.len() >= 3 {
            let joined = join_fields_from(&fields, 3);
            let value = joined.as_str().as_bytes_vec();
            Some(QueueOperation::AddItem(fields[1].clone(), fields[2].clone(), value))
        } else {
            None
        }
    } else if string_eq(&fields[0], "SetReadOffset") {
        if fields.len() >= 4 {
            match parse_usize(fields[3].as_str()) {
                Some(v) => Some(
                    QueueOperation::SetReadOffset(fields[1].clone(), fields[2].clone(), v),
                ),
                None => None,
            }
        } else {
            None
        }
    } else if string_eq(&fields[0], "ReadBatch") {
        if fields.len() >= 4 {
            match parse_usize(fields[3].as_str()) {
                Some(v) => Some(
                    QueueOperation::ReadBatch(fields[1].clone(), fields[2].clone(), v),
                ),
                None => None,
            }
        } else {
            None
        }
    } else {
        None
    }
}

/// Turns one line of client input into the operation it names, by the
/// textual shorthand; `None` for any line that names none.
pub fn convert_to_operation(line: &str) -> (r: Option<QueueOperation>)
    ensures
        match r {
            Some(op) => spec_convert(line@) == Some(op@),
            None => spec_convert(line@) is None,
        },
{
    let fields = split_fields(line);
    proof {
        assert(fields.deep_view().len() == fields@.len());
    }
    if string_eq(&fields[0], "add-topic") {
        if fields.len() >= 2 {
            Some(QueueOperation::AddTopic(fields[1].clone()))
        } else {
            None
        }
    } else if string_eq(&fields[0], "add-consumer") {
        if fields.len() == 3 {
            Some(QueueOperation::AddConsumer(fields[1].clone(), fields[2].clone(), None))
        } else if fields.len() >= 4 {
            match parse_usize(fields[3].as_str()) {
                Some(v) => Some(
                    QueueOperation::AddConsumer(fields[1].clone(), fields[2].clone(), Some(v)),
                ),
                None => None,
            }
        } else {
            None
        }
    } else if string_eq(&fields[0], "add-item") {
        if fields.len() >= 4 {
            let value = fields[3].as_str().as_bytes_vec();
            Some(QueueOperation::AddItem(fields[1].clone(), fields[2].clone(), value))
        } else {
            None
        }
    } else if string_eq(&fields[0], "read-batch") {
        if fields.len() >= 4 {
            match parse_usize(fields[3].as_str()) {
                Some(v) => Some(
                    QueueOperation::ReadBatch(fields[1].clone(), fields[2].clone(), v),
                ),
                None => None,
            }
        } else {
            None
        }
    } else {
        None
    }
}

} // verus!
