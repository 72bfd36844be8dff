//! The scale table: note names and their degrees in the C major scale.

use vstd::prelude::*;
use vstd::string::StrSliceExecFns;

verus! {

/// The degree of a note name in the C major scale: the seven single-letter
/// names C, D, E, F, G, A, B map to 1 through 7; every other string has no
/// degree.
pub open spec fn spec_note_to_degree(s: Seq<char>) -> Option<u8> {
    if s.len() == 1 {
        if s[0] == 'C' {
            Some(1u8)
        } else if s[0] == 'D' {
            Some(2u8)
        } else if s[0] == 'E' {
            Some(3u8)
        } else if s[0] == 'F' {
            Some(4u8)
        } else if s[0] == 'G' {
            Some(5u8)
        } else if s[0] == 'A' {
            Some(6u8)
        } else if s[0] == 'B' {
            Some(7u8)
        } else {
            None
        }
    } else {
        None
    }
}

/// Convert a note name to its degree in the C major scale; `None` for any
/// string that is not one of the seven plain note letters.
pub fn note_to_degree(note: &str) -> (r: Option<u8>)
    ensures
        r == spec_note_to_degree(note@),
        r matches Some(d) ==> 1 <= d <= 7,
{
    if note.unicode_len() == 1 {
        let c = note.get_char(0);
        match c {
            'C' => Some(1),
            'D' => Some(2),
            'E' => Some(3),
            'F' => Some(4),
            'G' => Some(5),
            'A' => Some(6),
            'B' => Some(7),
            _ => None,
        }
    } else {
        None
    }
}

/// The name of the note at a given degree of the C major scale, as a
/// one-character string; degrees outside 1 through 7 have no note and yield
/// the empty string.
pub open spec fn spec_degree_to_note(d: u8) -> Seq<char> {
    if d == 1 {
        seq!['C']
    } else if d == 2 {
        seq!['D']
    } else if d == 3 {
        seq!['E']
    } else if d == 4 {
        seq!['F']
    } else if d == 5 {
        seq!['G']
    } else if d == 6 {
        seq!['A']
    } else if d == 7 {
        seq!['B']
    } else {
        Seq::empty()
    }
}

/// The scale table is a bijection between the seven note letters and the
/// degrees 1 through 7: distinct recognized names have distinct degrees, and
/// every degree from 1 to 7 is the degree of exactly the name the reverse
/// table gives it.
pub proof fn lemma_scale_table_bijective()
    ensures
        forall|s1: Seq<char>, s2: Seq<char>|
            #[trigger] spec_note_to_degree(s1) is Some && spec_note_to_degree(s1)
                == #[trigger] spec_note_to_degree(s2) ==> s1 == s2,
        forall|d: u8| 1 <= d <= 7 ==> spec_note_to_degree(#[trigger] spec_degree_to_note(d))
            == Some(d),
{
    assert forall|s1: Seq<char>, s2: Seq<char>|
        #[trigger] spec_note_to_degree(s1) is Some && spec_note_to_degree(s1)
            == #[trigger] spec_note_to_degree(s2) implies s1 == s2 by {
        assert(s1 =~= s2);
    }
}

/// A string has a degree exactly when it is one of the seven single-letter
/// note names; in particular the empty string and every multi-character
/// string have none.
pub proof fn lemma_only_note_letters_have_degrees()
    ensures
        forall|s: Seq<char>|
            #[trigger] spec_note_to_degree(s) is Some <==> (s.len() == 1 && (s[0] == 'C' || s[0]
                == 'D' || s[0] == 'E' || s[0] == 'F' || s[0] == 'G' || s[0] == 'A' || s[0]
                == 'B')),
{
}

} // verus!
