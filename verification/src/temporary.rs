//! Which file names are those of temporary files.
use vstd::prelude::*;

verus! {

/// Whether a file of this name is temporary: an editor's backup, lock or swap file, or a
/// `.bck` or `.tmp` file.
pub open spec fn is_temporary(name: Seq<char>) -> bool {
    ||| ".bck"@.is_suffix_of(name)
    ||| ".tmp"@.is_suffix_of(name)
    ||| "~"@.is_suffix_of(name)
    ||| ".#"@.is_prefix_of(name)
    ||| "#"@.is_prefix_of(name)
    ||| "."@.is_prefix_of(name) && ".swp"@.is_suffix_of(name)
}

/// Whether `text` holds `part` from the index `at` on.
fn text_matches_at(text: &str, part: &str, at: usize) -> (r: bool)
    requires
        at + part@.len() <= text@.len(),
    ensures
        r == (text@.subrange(at as int, at + part@.len()) == part@),
{
    let n: usize = part.unicode_len();
    let total: usize = text.unicode_len();
    let mut i: usize = 0;
    while i < n
        invariant
            n == part@.len(),
            i <= n,
            total == text@.len(),
            at + n <= total,
            forall|j: int| 0 <= j < i ==> text@[at + j] == part@[j],
        decreases n - i,
    {
        if text.get_char(at + i) != part.get_char(i) {
            assert(text@.subrange(at as int, at + part@.len())[i as int] != part@[i as int]);
            return false;
        }
        i += 1;
    }
    assert(text@.subrange(at as int, at + part@.len()) =~= part@);
    true
}

/// Whether `text` begins with `prefix`.
pub fn text_starts_with(text: &str, prefix: &str) -> (r: bool)
    ensures
        r == prefix@.is_prefix_of(text@),
{
    prefix.unicode_len() <= text.unicode_len() && text_matches_at(text, prefix, 0)
}

/// Whether `text` ends with `suffix`.
pub fn text_ends_with(text: &str, suffix: &str) -> (r: bool)
    ensures
        r == suffix@.is_suffix_of(text@),
{
    let n: usize = text.unicode_len();
    let m: usize = suffix.unicode_len();
    m <= n && text_matches_at(text, suffix, n - m)
}

/// Whether a file of this name is temporary.
pub fn is_temporary_name(name: &str) -> (r: bool)
    ensures
        r == is_temporary(name@),
{
    text_ends_with(name, ".bck") || text_ends_with(name, ".tmp") || text_ends_with(name, "~")
        || text_starts_with(name, ".#") || text_starts_with(name, "#") || (text_starts_with(
        name,
        ".",
    ) && text_ends_with(name, ".swp"))
}

/// Which names are temporary, character by character: those that end in `~`, `.bck` or `.tmp`,
/// those that begin with `#` or `.#`, and those that begin with a dot and end in `.swp`. A dot at
/// the beginning alone makes no name temporary, nor does a `.swp` at the end alone.
pub proof fn law_temporary_names(name: Seq<char>)
    ensures
        ({
            let n = name.len() as int;
            let dot_and = |a: char, b: char, c: char|
                n >= 4 && name[n - 4] == '.' && name[n - 3] == a && name[n - 2] == b && name[n - 1]
                    == c;
            is_temporary(name) <==> {
                ||| n >= 1 && name[n - 1] == '~'
                ||| n >= 1 && name[0] == '#'
                ||| n >= 2 && name[0] == '.' && name[1] == '#'
                ||| dot_and('b', 'c', 'k')
                ||| dot_and('t', 'm', 'p')
                ||| n >= 1 && name[0] == '.' && dot_and('s', 'w', 'p')
            }
        }),
{
    reveal_strlit(".bck");
    reveal_strlit(".tmp");
    reveal_strlit("~");
    reveal_strlit(".#");
    reveal_strlit("#");
    reveal_strlit(".");
    reveal_strlit(".swp");
    lemma_four_letter_suffix(".bck"@, name);
    lemma_four_letter_suffix(".tmp"@, name);
    lemma_four_letter_suffix(".swp"@, name);
    lemma_suffix("~"@, name);
    lemma_prefix(".#"@, name);
    lemma_prefix("#"@, name);
    lemma_prefix("."@, name);
    assert("~"@[0] == '~' && "#"@[0] == '#' && "."@[0] == '.');
    assert(".#"@[0] == '.' && ".#"@[1] == '#');
}

/// What it is for a text to end with four letters.
proof fn lemma_four_letter_suffix(suffix: Seq<char>, text: Seq<char>)
    requires
        suffix.len() == 4,
    ensures
        suffix.is_suffix_of(text) <==> {
            let n = text.len() as int;
            n >= 4 && text[n - 4] == suffix[0] && text[n - 3] == suffix[1] && text[n - 2]
                == suffix[2] && text[n - 1] == suffix[3]
        },
{
    lemma_suffix(suffix, text);
}

/// What it is for one text to end with another, character by character.
proof fn lemma_suffix(suffix: Seq<char>, text: Seq<char>)
    ensures
        suffix.is_suffix_of(text) <==> suffix.len() <= text.len() && forall|i: int|
            0 <= i < suffix.len() ==> text[text.len() - suffix.len() + i] == #[trigger] suffix[i],
{
    let at = text.len() - suffix.len();
    if suffix.len() <= text.len() {
        let end = text.subrange(at, text.len() as int);
        if suffix.is_suffix_of(text) {
            assert forall|i: int| 0 <= i < suffix.len() implies text[at + i]
                == #[trigger] suffix[i] by {
                assert(end[i] == suffix[i]);
            }
        } else if forall|i: int| 0 <= i < suffix.len() ==> text[at + i] == #[trigger] suffix[i] {
            assert(suffix =~= end);
        }
    }
}

/// What it is for one text to begin with another, character by character.
proof fn lemma_prefix(prefix: Seq<char>, text: Seq<char>)
    ensures
        prefix.is_prefix_of(text) <==> prefix.len() <= text.len() && forall|i: int|
            0 <= i < prefix.len() ==> text[i] == #[trigger] prefix[i],
{
    if prefix.len() <= text.len() {
        let start = text.subrange(0, prefix.len() as int);
        if prefix.is_prefix_of(text) {
            assert forall|i: int| 0 <= i < prefix.len() implies text[i] == #[trigger] prefix[i] by {
                assert(start[i] == prefix[i]);
            }
        } else if forall|i: int| 0 <= i < prefix.len() ==> text[i] == #[trigger] prefix[i] {
            assert(prefix =~= start);
        }
    }
}

} // verus!
