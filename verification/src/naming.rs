//! File-name components built from experiment, frequency and source names.
use vstd::prelude::*;
use crate::text::{chars_of, push_char};

verus! {

/// ASCII letters, ASCII digits, `-` and `_`: the characters kept in a file-name component.
pub open spec fn is_safe(c: char) -> bool {
    let u = c as u32;
    (48 <= u <= 57) || (65 <= u <= 90) || (97 <= u <= 122) || c == '-' || c == '_'
}

pub open spec fn safe_char(c: char) -> char {
    if is_safe(c) {
        c
    } else {
        '_'
    }
}

/// A file-name component: every other character becomes `_`; an empty name becomes `unknown`.
pub open spec fn safe_text(s: Seq<char>) -> Seq<char> {
    if s.len() == 0 {
        "unknown"@
    } else {
        s.map_values(|c: char| safe_char(c))
    }
}

/// A file-name component made from a name.
pub fn safe_component(value: &str) -> (r: String)
    ensures
        r@ == safe_text(value@),
{
    let v = chars_of(value);
    if v.len() == 0 {
        return String::from_str("unknown");
    }
    let mut r = String::new();
    let mut i: usize = 0;
    while i < v.len()
        invariant
            v@ == value@,
            i <= v.len(),
            r@ == v@.take(i as int).map_values(|c: char| safe_char(c)),
        decreases v.len() - i,
    {
        let c = v[i];
        let u = c as u32;
        let keep = (48 <= u && u <= 57) || (65 <= u && u <= 90) || (97 <= u && u <= 122) || c == '-'
            || c == '_';
        let out = if keep {
            c
        } else {
            '_'
        };
        push_char(&mut r, out);
        i = i + 1;
        assert(r@ =~= v@.take(i as int).map_values(|c: char| safe_char(c)));
    }
    assert(v@.take(v.len() as int) =~= v@);
    r
}

/// A component is non-empty, made only of kept characters, and making it again
/// changes nothing.
pub proof fn lemma_safe_component(s: Seq<char>)
    ensures
        safe_text(s).len() > 0,
        forall|i: int| 0 <= i < safe_text(s).len() ==> is_safe(#[trigger] safe_text(s)[i]),
        safe_text(safe_text(s)) == safe_text(s),
        s.len() > 0 ==> safe_text(s).len() == s.len(),
{
    reveal_strlit("unknown");
    let t = safe_text(s);
    assert(forall|i: int| 0 <= i < t.len() ==> is_safe(#[trigger] t[i]));
    assert(safe_text(t) =~= t);
}

} // verus!
