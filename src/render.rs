use vstd::prelude::*;
use vstd::string::to_string_from_display_ensures;
use std::fmt::Display;

verus! {

/// `parts` joined by `sep`.
pub open spec fn joined(parts: Seq<Seq<char>>, sep: Seq<char>) -> Seq<char>
    decreases parts.len(),
{
    if parts.len() == 0 {
        Seq::empty()
    } else if parts.len() == 1 {
        parts[0]
    } else {
        joined(parts.drop_last(), sep) + sep + parts.last()
    }
}

/// `text` is what the `Display` impl of `T` writes for `value`.
pub open spec fn shows<T: Display>(value: &T, text: Seq<char>) -> bool {
    exists|s: String| to_string_from_display_ensures::<T>(value, s) && s@ == text
}

/// `texts[i]` is what the `Display` impl writes for `values[i]`.
pub open spec fn displayed<T: Display>(values: Seq<T>, texts: Seq<Seq<char>>) -> bool {
    &&& texts.len() == values.len()
    &&& forall|i: int| 0 <= i < values.len() ==> #[trigger] shows(&values[i], texts[i])
}

/// The values behind a sequence of references.
pub open spec fn deref_all<T>(refs: Seq<&T>) -> Seq<T> {
    refs.map_values(|r: &T| *r)
}

/// `text` is `prefix`, then `values` as `Display` writes them separated by
/// `sep`, then `suffix`.
pub open spec fn listed<T: Display>(
    values: Seq<T>,
    prefix: Seq<char>,
    sep: Seq<char>,
    suffix: Seq<char>,
    text: Seq<char>,
) -> bool {
    exists|texts: Seq<Seq<char>>| displayed(values, texts) && text == prefix + joined(texts, sep) + suffix
}

/// `prefix`, then the values as `Display` writes them separated by `sep`,
/// then `suffix`.
pub fn render_list<T: Display>(values: &Vec<&T>, prefix: &str, sep: &str, suffix: &str) -> (r: String)
    ensures
        listed(deref_all(values@), prefix@, sep@, suffix@, r@),
{
    let mut out = String::from_str(prefix);
    let ghost mut texts: Seq<Seq<char>> = Seq::empty();
    let mut i: usize = 0;
    while i < values.len()
        invariant
            i <= values@.len(),
            displayed(deref_all(values@.take(i as int)), texts),
            out@ == prefix@ + joined(texts, sep@),
        decreases values.len() - i,
    {
        let piece = values[i].to_string();
        if i > 0 {
            out.append(sep);
        }
        out.append(piece.as_str());
        proof {
            let t2 = texts.push(piece@);
            assert(t2.drop_last() =~= texts);
            assert(values@.take(i + 1) =~= values@.take(i as int).push(values@[i as int]));
            assert(displayed(deref_all(values@.take(i + 1)), t2)) by {
                assert forall|j: int| 0 <= j < i + 1 implies #[trigger] shows(
                    &deref_all(values@.take(i + 1))[j],
                    t2[j],
                ) by {
                    if j == i {
                        assert(to_string_from_display_ensures::<T>(values@[j], piece));
                    } else {
                        assert(deref_all(values@.take(i + 1))[j] == deref_all(values@.take(i as int))[j]);
                    }
                }
            }
            if i == 0 {
                assert(joined(t2, sep@) == piece@);
            } else {
                assert(prefix@ + joined(t2, sep@) =~= out@);
            }
            texts = t2;
        }
        i = i + 1;
    }
    out.append(suffix);
    assert(values@.take(values@.len() as int) =~= values@);
    out
}

/// The message for an index past the end: `Index i out of bounds
/// (Length n)`.
pub fn index_error(index: usize, length: usize) -> (r: String)
    ensures
        listed(seq![index, length], "Index "@, " out of bounds (Length "@, ")"@, r@),
{
    let parts: Vec<&usize> = vec![&index, &length];
    assert(deref_all(parts@) =~= seq![index, length]);
    render_list(&parts, "Index ", " out of bounds (Length ", ")")
}

} // verus!
