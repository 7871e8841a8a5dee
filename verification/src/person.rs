//! The identity form of a person's label: the key under which faces,
//! learning events and questions refer to one person, whatever spelling or
//! capitalisation was typed.

use vstd::prelude::*;
use crate::text::{chars_of, string_of};

verus! {

/// What one character contributes to an identity: an ASCII letter lowered,
/// a digit, or an accented Latin letter folded to its base letter. Any
/// other character separates words.
pub open spec fn fold_char(c: char) -> Option<char> {
    if 'a' <= c && c <= 'z' {
        Some(c)
    } else if '0' <= c && c <= '9' {
        Some(c)
    } else if 'A' <= c && c <= 'Z' {
        Some(((c as u32) + 32) as char)
    } else {
        match c {
            'ı' | 'İ' | 'í' | 'ì' | 'î' | 'ï' | 'Í' | 'Ì' | 'Î' | 'Ï' => Some('i'),
            'ş' | 'Ş' | 'ś' | 'Ś' | 'š' | 'Š' => Some('s'),
            'ğ' | 'Ğ' => Some('g'),
            'ü' | 'Ü' | 'ú' | 'ù' | 'û' | 'Ú' | 'Ù' | 'Û' => Some('u'),
            'ö' | 'Ö' | 'ó' | 'ò' | 'ô' | 'õ' | 'Ó' | 'Ò' | 'Ô' | 'Õ' | 'ø' | 'Ø' => Some('o'),
            'ç' | 'Ç' | 'ć' | 'Ć' | 'č' | 'Č' => Some('c'),
            'á' | 'à' | 'â' | 'ä' | 'ã' | 'å' | 'Á' | 'À' | 'Â' | 'Ä' | 'Ã' | 'Å' => Some('a'),
            'é' | 'è' | 'ê' | 'ë' | 'É' | 'È' | 'Ê' | 'Ë' => Some('e'),
            'ñ' | 'Ñ' => Some('n'),
            'ž' | 'Ž' => Some('z'),
            _ => None,
        }
    }
}

/// The identity built from a label so far, and whether a separator is
/// pending before the next word.
pub open spec fn identity_state(s: Seq<char>) -> (Seq<char>, bool)
    decreases s.len(),
{
    if s.len() == 0 {
        (Seq::empty(), false)
    } else {
        let (out, pending) = identity_state(s.drop_last());
        match fold_char(s.last()) {
            Some(x) => if pending && out.len() > 0 {
                (out.push('_').push(x), false)
            } else {
                (out.push(x), false)
            },
            None => (out, true),
        }
    }
}

/// The identity of a label: its words, folded to lower-case ASCII and
/// joined by `_`; `None` when nothing usable remains.
pub open spec fn identity_of(label: Seq<char>) -> Option<Seq<char>> {
    let (out, _) = identity_state(label);
    if out.len() == 0 {
        None
    } else {
        Some(out)
    }
}

/// The folded form of one character.
pub fn fold(c: char) -> (r: Option<char>)
    ensures
        r == fold_char(c),
{
    if 'a' <= c && c <= 'z' {
        Some(c)
    } else if '0' <= c && c <= '9' {
        Some(c)
    } else if 'A' <= c && c <= 'Z' {
        Some(crate::text::lower_char(c))
    } else {
        match c {
            'ı' | 'İ' | 'í' | 'ì' | 'î' | 'ï' | 'Í' | 'Ì' | 'Î' | 'Ï' => Some('i'),
            'ş' | 'Ş' | 'ś' | 'Ś' | 'š' | 'Š' => Some('s'),
            'ğ' | 'Ğ' => Some('g'),
            'ü' | 'Ü' | 'ú' | 'ù' | 'û' | 'Ú' | 'Ù' | 'Û' => Some('u'),
            'ö' | 'Ö' | 'ó' | 'ò' | 'ô' | 'õ' | 'Ó' | 'Ò' | 'Ô' | 'Õ' | 'ø' | 'Ø' => Some('o'),
            'ç' | 'Ç' | 'ć' | 'Ć' | 'č' | 'Č' => Some('c'),
            'á' | 'à' | 'â' | 'ä' | 'ã' | 'å' | 'Á' | 'À' | 'Â' | 'Ä' | 'Ã' | 'Å' => Some('a'),
            'é' | 'è' | 'ê' | 'ë' | 'É' | 'È' | 'Ê' | 'Ë' => Some('e'),
            'ñ' | 'Ñ' => Some('n'),
            'ž' | 'Ž' => Some('z'),
            _ => None,
        }
    }
}

/// The identity form of a label (`Işıl Özyeğin` -> `isil_ozyegin`), or
/// `None` when the label holds nothing usable (`!!!`).
pub fn normalize(label: &str) -> (r: Option<String>)
    ensures
        r is Some <==> identity_of(label@) is Some,
        r is Some ==> r->0@ == identity_of(label@)->0,
{
    let v = chars_of(label);
    let mut out: Vec<char> = Vec::new();
    let mut pending = false;
    let mut i: usize = 0;
    while i < v.len()
        invariant
            v@ == label@,
            i <= v@.len(),
            (out@, pending) == identity_state(v@.take(i as int)),
        decreases v@.len() - i,
    {
        proof {
            assert(v@.take(i + 1).drop_last() =~= v@.take(i as int));
        }
        match fold(v[i]) {
            Some(x) => {
                if pending && out.len() > 0 {
                    out.push('_');
                }
                out.push(x);
                pending = false;
            },
            None => {
                pending = true;
            },
        }
        i = i + 1;
    }
    assert(v@.take(v@.len() as int) =~= v@);
    if out.len() == 0 {
        None
    } else {
        Some(string_of(out.as_slice()))
    }
}


/// A character an identity keeps as it is: a lower-case ASCII letter or a
/// digit.
pub open spec fn is_word_char(c: char) -> bool {
    ('a' <= c && c <= 'z') || ('0' <= c && c <= '9')
}

/// The shape of an identity so far: word characters and `_`, never `_`
/// first and never two `_` in a row.
pub open spec fn identity_shaped(s: Seq<char>) -> bool {
    &&& forall|i: int| 0 <= i < s.len() ==> is_word_char(#[trigger] s[i]) || s[i] == '_'
    &&& (s.len() > 0 ==> s[0] != '_')
    &&& forall|i: int| 0 <= i < s.len() - 1 ==> !(#[trigger] s[i] == '_' && s[i + 1] == '_')
}

proof fn lemma_fold_char_word(c: char)
    ensures
        fold_char(c) matches Some(x) ==> is_word_char(x),
        is_word_char(c) ==> fold_char(c) == Some(c),
        fold_char('_') is None,
{
    if 'A' <= c && c <= 'Z' {
        let x = ((c as u32) + 32) as char;
        assert('a' <= x && x <= 'z');
    }
}

proof fn lemma_identity_state_shape(s: Seq<char>)
    ensures
        identity_shaped(identity_state(s).0),
        identity_state(s).0.len() > 0 ==> identity_state(s).0.last() != '_',
    decreases s.len(),
{
    if s.len() > 0 {
        lemma_identity_state_shape(s.drop_last());
        lemma_fold_char_word(s.last());
        let (out, pending) = identity_state(s.drop_last());
        match fold_char(s.last()) {
            Some(x) => {
                if pending && out.len() > 0 {
                    let r = out.push('_').push(x);
                    assert forall|i: int| 0 <= i < r.len() - 1 implies !(#[trigger] r[i] == '_'
                        && r[i + 1] == '_') by {
                        if i < out.len() - 1 {
                            assert(r[i] == out[i] && r[i + 1] == out[i + 1]);
                        } else if i == out.len() - 1 {
                            assert(r[i] == out.last());
                        }
                    }
                    assert forall|i: int| 0 <= i < r.len() implies is_word_char(#[trigger] r[i])
                        || r[i] == '_' by {
                        if i < out.len() {
                            assert(r[i] == out[i]);
                        }
                    }
                } else {
                    let r = out.push(x);
                    assert forall|i: int| 0 <= i < r.len() - 1 implies !(#[trigger] r[i] == '_'
                        && r[i + 1] == '_') by {
                        if i < out.len() - 1 {
                            assert(r[i] == out[i] && r[i + 1] == out[i + 1]);
                        }
                    }
                    assert forall|i: int| 0 <= i < r.len() implies is_word_char(#[trigger] r[i])
                        || r[i] == '_' by {
                        if i < out.len() {
                            assert(r[i] == out[i]);
                        }
                    }
                }
            },
            None => {},
        }
    }
}

proof fn lemma_identity_state_of_shaped(s: Seq<char>)
    requires
        identity_shaped(s),
    ensures
        identity_state(s) == if s.len() > 0 && s.last() == '_' {
            (s.drop_last(), true)
        } else {
            (s, false)
        },
    decreases s.len(),
{
    if s.len() > 0 {
        let t = s.drop_last();
        assert(identity_shaped(t)) by {
            assert forall|i: int| 0 <= i < t.len() - 1 implies !(#[trigger] t[i] == '_' && t[i + 1]
                == '_') by {
                assert(t[i] == s[i] && t[i + 1] == s[i + 1]);
            }
        }
        lemma_identity_state_of_shaped(t);
        lemma_fold_char_word(s.last());
        if s.last() == '_' {
            assert(s.len() >= 2);
            assert(!(s[s.len() - 2] == '_' && s[s.len() - 1] == '_'));
            assert(t.last() != '_');
        } else {
            assert(is_word_char(s.last()));
            if t.len() > 0 && t.last() == '_' {
                assert(t.len() >= 2);
                assert(t.drop_last().push('_').push(s.last()) =~= s);
            } else {
                assert(t.push(s.last()) =~= s);
            }
        }
    }
}

/// Normalizing is idempotent: an identity is already in identity form, so
/// normalizing it again gives it back.
pub proof fn lemma_identity_is_a_fixed_point(label: Seq<char>)
    ensures
        identity_of(label) matches Some(id) ==> identity_of(id) == Some(id),
{
    lemma_identity_state_shape(label);
    let out = identity_state(label).0;
    if out.len() > 0 {
        lemma_identity_state_of_shaped(out);
    }
}

} // verus!
