//! The textual form of a map.

use std::fmt::Debug;

use vstd::prelude::*;
use vstd::string::StringExecFns;

use crate::contents::pool_pairs;
use crate::map::HashMap;

verus! {

/// Whether `text` is what formatting `value` with `{:?}` can give.
pub closed spec fn shows_as<T: Debug>(value: &T, text: Seq<char>) -> bool {
    exists|shown: String| #[trigger]
        call_ensures(format_debug::<T>, (value,), shown) && shown@ == text
}

/// Formats a value with `{:?}`, by [`format!`]. Nothing is promised of the text here: it is what
/// the value's own implementation of [`Debug`] writes.
#[verifier::external_body]
fn format_debug<T: Debug>(value: &T) -> (text: String) {
    format!("{:?}", value)
}

/// The text for a value.
fn show<T: Debug>(value: &T) -> (text: String)
    ensures
        shows_as(value, text@),
{
    let formatter = format_debug::<T>;
    formatter(value)
}

/// The text of entries, given the texts of their keys and of their values: each value after its
/// key and a colon, with commas in between.
pub open spec fn listed(keys: Seq<Seq<char>>, values: Seq<Seq<char>>) -> Seq<char>
    decreases keys.len(),
{
    if keys.len() == 0 {
        Seq::empty()
    } else {
        let last = keys.last() + ": "@ + values.last();
        if keys.len() == 1 {
            last
        } else {
            listed(keys.drop_last(), values.drop_last()) + ", "@ + last
        }
    }
}

/// A text is what formatting can give only if formatting gives it.
proof fn law_shown<T: Debug>(value: &T, text: Seq<char>)
    ensures
        shows_as(value, text) <==> exists|shown: String| #[trigger]
            call_ensures(format_debug::<T>, (value,), shown) && shown@ == text,
{
}

/// The text of no entries is empty. The text of one entry more, however many there are, is the text
/// of the others, a comma and a space if there are others, and the last key and value with a colon
/// and a space in between.
pub proof fn law_listed(
    keys: Seq<Seq<char>>,
    values: Seq<Seq<char>>,
    key: Seq<char>,
    value: Seq<char>,
)
    requires
        keys.len() == values.len(),
    ensures
        listed(Seq::empty(), Seq::empty()) == Seq::<char>::empty(),
        listed(keys.push(key), values.push(value)) == listed(keys, values) + (if keys.len() == 0 {
            Seq::empty()
        } else {
            seq![',', ' ']
        }) + key + seq![':', ' '] + value,
{
    reveal_strlit(", ");
    reveal_strlit(": ");
    assert(", "@ =~= seq![',', ' ']);
    assert(": "@ =~= seq![':', ' ']);
    assert(keys.push(key).drop_last() =~= keys);
    assert(values.push(value).drop_last() =~= values);
    assert(listed(keys.push(key), values.push(value)) =~= listed(keys, values) + (if keys.len()
        == 0 {
        Seq::empty()
    } else {
        seq![',', ' ']
    }) + key + seq![':', ' '] + value);
}

/// The sum of the lengths of some texts.
pub open spec fn total_text(texts: Seq<Seq<char>>) -> nat
    decreases texts.len(),
{
    if texts.len() == 0 {
        0
    } else {
        total_text(texts.drop_last()) + texts.last().len()
    }
}

/// The text of entries is as long as all texts of keys and values together, and two characters more
/// for each entry, and for each but the first: nothing is left out.
pub proof fn law_listed_length(keys: Seq<Seq<char>>, values: Seq<Seq<char>>)
    requires
        keys.len() == values.len(),
    ensures
        listed(keys, values).len() == total_text(keys) + total_text(values) + 2 * keys.len() + (
        if keys.len() == 0 {
            0
        } else {
            2 * (keys.len() - 1)
        }),
    decreases keys.len(),
{
    if keys.len() > 0 {
        let front = keys.drop_last();
        let others = values.drop_last();
        law_listed_length(front, others);
        law_listed(front, others, keys.last(), values.last());
        assert(front.push(keys.last()) =~= keys);
        assert(others.push(values.last()) =~= values);
    }
}

impl<K: Debug, V: Debug, S, const N: usize> HashMap<K, V, S, N> {
    /// Formats the map as `{key: value, key: value}`, in the order of iteration, with the `{:?}`
    /// form of each key and value.
    pub fn to_debug_string(&self) -> (text: String)
        ensures
            exists|keys: Seq<Seq<char>>, values: Seq<Seq<char>>|
                {
                    let pairs = pool_pairs(self.inner.buckets@);
                    &&& keys.len() == pairs.len()
                    &&& values.len() == pairs.len()
                    &&& forall|i: int|
                        0 <= i < pairs.len() ==> shows_as(&pairs[i].0, #[trigger] keys[i])
                    &&& forall|i: int|
                        0 <= i < pairs.len() ==> shows_as(&pairs[i].1, #[trigger] values[i])
                    &&& text@ == "{"@ + #[trigger] listed(keys, values) + "}"@
                },
    {
        let mut text: String = String::new();
        text.append("{");
        let ghost pairs = pool_pairs(self.inner.buckets@);
        let ghost mut keys: Seq<Seq<char>> = Seq::empty();
        let ghost mut values: Seq<Seq<char>> = Seq::empty();
        let mut iter = self.iter();
        let mut first: bool = true;
        assert(pairs.skip(0) =~= pairs);
        assert(text@ =~= "{"@ + listed(keys, values));
        loop
            invariant
                pairs == pool_pairs(self.inner.buckets@),
                keys.len() <= pairs.len(),
                values.len() == keys.len(),
                first == (keys.len() == 0),
                iter.rest() == pairs.skip(keys.len() as int),
                text@ == "{"@ + listed(keys, values),
                forall|i: int| 0 <= i < keys.len() ==> shows_as(&pairs[i].0, #[trigger] keys[i]),
                forall|i: int|
                    0 <= i < keys.len() ==> shows_as(&pairs[i].1, #[trigger] values[i]),
            ensures
                keys.len() == pairs.len(),
            decreases pairs.len() - keys.len(),
        {
            let ghost done = keys.len() as int;
            match iter.next() {
                Some((key, value)) => {
                    assert(pairs.skip(done).drop_first() =~= pairs.skip(done + 1));
                    assert(pairs.skip(done)[0] == pairs[done]);
                    let ghost before = text@;
                    if !first {
                        text.append(", ");
                    }
                    first = false;
                    let key_text = show(key);
                    let value_text = show(value);
                    text.append(key_text.as_str());
                    text.append(": ");
                    text.append(value_text.as_str());
                    proof {
                        let more_keys = keys.push(key_text@);
                        let more_values = values.push(value_text@);
                        assert(more_keys.drop_last() =~= keys);
                        assert(more_values.drop_last() =~= values);
                        assert(text@ =~= "{"@ + listed(more_keys, more_values));
                        keys = more_keys;
                        values = more_values;
                    }
                },
                None => {
                    break;
                },
            }
        }
        text.append("}");
        assert(text@ == "{"@ + listed(keys, values) + "}"@);
        text
    }
}

} // verus!
