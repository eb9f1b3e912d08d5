//! Recovering a video identifier from the name of a downloaded file.
//!
//! A downloaded file carries its video's identifier in a bracketed tag, such as
//! `My Video [abc123].opus`. A tag is `[`, one or more word characters, `]`;
//! where a name holds several, the last one wins, since a playlist title earlier
//! in the name may itself hold something that looks like a tag.

use crate::views;
use vstd::prelude::*;

verus! {

/// Whether `c` belongs to the `\w` class of regular expressions.
pub uninterp spec fn is_word_char(c: char) -> bool;

/// Relies on `regex_syntax::is_word_character`, the `\w` class of the regex
/// crates. It does not panic under the crate's default `unicode-perl` feature.
#[verifier::external_body]
fn word_char(c: char) -> (r: bool)
    ensures
        r == is_word_char(c),
{
    regex_syntax::is_word_character(c)
}

/// `s[k]` may stand inside a tag, where `word[k]` tells whether it is a word
/// character. Brackets are never word characters.
pub open spec fn tag_char(s: Seq<char>, word: Seq<bool>, k: int) -> bool {
    word[k] && s[k] != '[' && s[k] != ']'
}

/// `s[i..=j]` is a tag: `[`, one or more word characters, `]`.
pub open spec fn tag_at(s: Seq<char>, word: Seq<bool>, i: int, j: int) -> bool {
    &&& 0 <= i
    &&& i + 1 < j < s.len()
    &&& s[i] == '['
    &&& s[j] == ']'
    &&& forall|k: int| i < k < j ==> #[trigger] tag_char(s, word, k)
}

/// `s[i..=j]` is the last tag of `s`.
pub open spec fn last_tag_at(s: Seq<char>, word: Seq<bool>, i: int, j: int) -> bool {
    &&& tag_at(s, word, i, j)
    &&& forall|i2: int, j2: int| #[trigger] tag_at(s, word, i2, j2) ==> i2 <= i
}

/// The inside of the last tag of `s`, if it has one.
pub open spec fn tag_id(s: Seq<char>, word: Seq<bool>) -> Option<Seq<char>> {
    if exists|i: int, j: int| last_tag_at(s, word, i, j) {
        let (i, j) = choose|i: int, j: int| last_tag_at(s, word, i, j);
        Some(s.subrange(i + 1, j))
    } else {
        None
    }
}

/// Which characters of `s` are word characters.
pub open spec fn word_flags(s: Seq<char>) -> Seq<bool> {
    Seq::new(s.len(), |k: int| is_word_char(s[k]))
}

/// The identifier that a file name carries: the inside of its last tag, if any.
pub open spec fn video_id(s: Seq<char>) -> Option<Seq<char>> {
    tag_id(s, word_flags(s))
}

/// A name has at most one last tag.
proof fn lemma_last_tag_unique(s: Seq<char>, word: Seq<bool>, i: int, j: int, i2: int, j2: int)
    requires
        last_tag_at(s, word, i, j),
        last_tag_at(s, word, i2, j2),
    ensures
        i == i2,
        j == j2,
{
    assert(tag_at(s, word, i2, j2));
    assert(tag_at(s, word, i, j));
    assert(i == i2);
    if j < j2 {
        assert(tag_char(s, word, j));
    } else if j2 < j {
        assert(tag_char(s, word, j2));
    }
}

/// Returns the inside of the last bracketed tag of `name`, or `None` where it
/// holds no tag; `word[k]` tells whether the `k`-th character of `name` is a
/// word character.
pub fn last_tag(name: &str, word: &Vec<bool>) -> (r: Option<String>)
    requires
        word@.len() == name@.len(),
    ensures
        r is None <==> tag_id(name@, word@) is None,
        r matches Some(id) ==> tag_id(name@, word@) == Some(id@),
{
    let ghost s = name@;
    let ghost w = word@;
    // The latest `[` that only word characters have followed since.
    let mut open: Option<usize> = None;
    // The last tag seen so far, by the positions of its brackets.
    let mut last: Option<(usize, usize)> = None;
    let n = word.len();
    let mut k: usize = 0;
    for c in it: name.chars()
        invariant
            s == name@,
            w == word@,
            n == w.len(),
            w.len() == s.len(),
            it.seq() == s,
            k == it.index(),
            open matches Some(i) ==> {
                &&& i < k
                &&& s[i as int] == '['
                &&& forall|m: int| i < m < k ==> #[trigger] tag_char(s, w, m)
            },
            open is None ==> forall|i: int|
                0 <= i < k && #[trigger] s[i] == '[' ==> exists|m: int|
                    i < m < k && !#[trigger] tag_char(s, w, m),
            last matches Some((i, j)) ==> {
                &&& j < k
                &&& tag_at(s, w, i as int, j as int)
                &&& forall|i2: int, j2: int| #[trigger] tag_at(s, w, i2, j2) && j2 < k ==> i2 <= i
            },
            last is None ==> forall|i2: int, j2: int| #[trigger] tag_at(s, w, i2, j2) ==> j2 >= k,
    {
        assert(c == s[k as int]);
        assert(k < n);
        assert(tag_char(s, w, k as int) == (w[k as int] && c != '[' && c != ']'));
        let ghost open_before = open;
        if c == ']' {
            match open {
                Some(i) => {
                    if i + 1 < k {
                        assert(tag_at(s, w, i as int, k as int));
                        assert forall|i2: int, j2: int|
                            #[trigger] tag_at(s, w, i2, j2) && j2 < k + 1 implies i2 <= i by {
                            if j2 == k {
                                if i2 < i {
                                    assert(tag_char(s, w, i as int));
                                } else if i < i2 {
                                    assert(tag_char(s, w, i2));
                                }
                            } else if i < j2 {
                                assert(tag_char(s, w, j2));
                            }
                        }
                        last = Some((i, k));
                    }
                },
                None => {},
            }
            open = None;
        } else if c == '[' {
            open = Some(k);
        } else if !word[k] {
            open = None;
        }
        assert forall|i2: int, j2: int| #[trigger] tag_at(s, w, i2, j2) && j2 == k implies (
        last matches Some((i, j)) && i2 <= i && j == k) by {
            match open_before {
                None => {
                    assert(s[i2] == '[');
                    let m = choose|m: int| i2 < m < k && !#[trigger] tag_char(s, w, m);
                    assert(tag_char(s, w, m));
                },
                Some(i) => {
                    if i2 < i {
                        assert(tag_char(s, w, i as int));
                    } else if i < i2 {
                        assert(tag_char(s, w, i2));
                    }
                },
            }
        }
        k = k + 1;
    }
    match last {
        Some((i, j)) => {
            assert(last_tag_at(s, w, i as int, j as int));
            proof {
                let (i0, j0) = choose|i0: int, j0: int| last_tag_at(s, w, i0, j0);
                lemma_last_tag_unique(s, w, i as int, j as int, i0, j0);
            }
            let id = name.substring_char(i + 1, j);
            Some(String::from_str(id))
        },
        None => None,
    }
}

/// Returns the identifier in a file name's last bracketed tag, or `None` where
/// the name holds no tag.
pub fn extract_id(name: &str) -> (r: Option<String>)
    ensures
        r is None <==> video_id(name@) is None,
        r matches Some(id) ==> video_id(name@) == Some(id@),
{
    let mut word: Vec<bool> = Vec::new();
    for c in it: name.chars()
        invariant
            it.seq() == name@,
            word@ == word_flags(name@).subrange(0, it.index()),
    {
        assert(c == name@[it.index()]);
        word.push(word_char(c));
        assert(word@ =~= word_flags(name@).subrange(0, it.index() + 1));
    }
    assert(word@ =~= word_flags(name@));
    last_tag(name, &word)
}

/// The identifiers that file names carry, in the names' order; a name without
/// one gives none.
pub open spec fn ids_of(names: Seq<Seq<char>>) -> Seq<Seq<char>>
    decreases names.len(),
{
    if names.len() == 0 {
        Seq::empty()
    } else {
        let ids = ids_of(names.drop_last());
        match video_id(names.last()) {
            Some(id) => ids.push(id),
            None => ids,
        }
    }
}

/// The positions of the file names that carry no identifier, ascending.
pub open spec fn without_id(names: Seq<Seq<char>>) -> Seq<int>
    decreases names.len(),
{
    if names.len() == 0 {
        Seq::empty()
    } else {
        let rest = without_id(names.drop_last());
        if video_id(names.last()) is None {
            rest.push(names.len() - 1)
        } else {
            rest
        }
    }
}

/// The identifiers of a playlist's local files.
pub struct LocalIds {
    /// The identifiers, in the order of the names that carry them.
    pub ids: Vec<String>,
    /// The positions of the names that carry none; those files are left alone.
    pub unmatched: Vec<usize>,
}

/// Extracts the identifier of each file name in a directory listing.
pub fn local_ids(names: &Vec<String>) -> (r: LocalIds)
    ensures
        views(r.ids@) == ids_of(views(names@)),
        r.unmatched@.map_values(|i: usize| i as int) == without_id(views(names@)),
{
    let ghost nv = views(names@);
    let mut ids: Vec<String> = Vec::new();
    let mut unmatched: Vec<usize> = Vec::new();
    let mut i: usize = 0;
    while i < names.len()
        invariant
            nv == views(names@),
            i <= names@.len(),
            views(ids@) == ids_of(nv.subrange(0, i as int)),
            unmatched@.map_values(|i: usize| i as int) == without_id(nv.subrange(0, i as int)),
        decreases names@.len() - i,
    {
        let ghost before_ids = ids@;
        let ghost before_unmatched = unmatched@;
        assert(nv.subrange(0, i + 1).drop_last() =~= nv.subrange(0, i as int));
        assert(nv.subrange(0, i + 1).last() == names@[i as int]@);
        match extract_id(names[i].as_str()) {
            Some(id) => {
                ids.push(id);
                assert(views(ids@) =~= views(before_ids).push(ids@.last()@));
            },
            None => {
                unmatched.push(i);
                assert(unmatched@.map_values(|i: usize| i as int) =~= before_unmatched.map_values(
                    |i: usize| i as int,
                ).push(i as int));
            },
        }
        i = i + 1;
    }
    assert(nv.subrange(0, i as int) =~= nv);
    LocalIds { ids, unmatched }
}

} // verus!
