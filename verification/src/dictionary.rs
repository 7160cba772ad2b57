//! The word source: parses newline-separated raw text into the list of
//! words of a fixed length, keeps them both in line order (for random
//! draws) and as a case-normalized set (for membership tests).
//!
//! A line may carry an annotation after a `/`, which is discarded; the
//! remaining text is trimmed, and accepted only if it has exactly the
//! configured number of characters (before and after case normalization)
//! and does not start with an uppercase letter, a filter that keeps
//! proper nouns out of a mixed-case word list.

use vstd::prelude::*;

use crate::text::{
    char_is_uppercase, char_is_whitespace, chars_of, string_from_chars, to_upper, upper_of,
    uppercase_char, whitespace_char,
};

verus! {

use vstd::hash_set::StringHashSet;
use vstd::string::StrSliceExecFns;

/// Index of the first occurrence of `t` in `s`, or `s.len()` if `t` does
/// not occur.
pub open spec fn scan_to(s: Seq<char>, t: char) -> int
    decreases s.len(),
{
    if s.len() == 0 {
        0
    } else if s[0] == t {
        0
    } else {
        1 + scan_to(s.drop_first(), t)
    }
}

proof fn lemma_scan_to(s: Seq<char>, t: char)
    ensures
        0 <= scan_to(s, t) <= s.len(),
        forall|k: int| 0 <= k < scan_to(s, t) ==> s[k] != t,
        scan_to(s, t) < s.len() ==> s[scan_to(s, t)] == t,
    decreases s.len(),
{
    if s.len() == 0 {
    } else if s[0] == t {
    } else {
        let d = s.drop_first();
        lemma_scan_to(d, t);
        assert forall|k: int| 0 <= k < scan_to(s, t) implies s[k] != t by {
            if k > 0 {
                assert(d[k - 1] == s[k]);
            }
        }
        if scan_to(s, t) < s.len() {
            assert(d[scan_to(d, t)] == s[scan_to(s, t)]);
        }
    }
}

/// `scan_to` is the unique index with nothing equal to `t` before it and
/// `t` (or the end) at it.
proof fn lemma_scan_to_unique(s: Seq<char>, t: char, j: int)
    requires
        0 <= j <= s.len(),
        forall|k: int| 0 <= k < j ==> s[k] != t,
        j < s.len() ==> s[j] == t,
    ensures
        scan_to(s, t) == j,
{
    lemma_scan_to(s, t);
    let i = scan_to(s, t);
    if i < j {
        assert(s[i] == t);
        assert(s[i] != t);
    }
    if j < i {
        assert(s[j] != t);
        assert(s[j] == t);
    }
}

/// The part of a line before its first '/': the annotation delimiter and
/// everything after it are discarded.
pub open spec fn before_slash(l: Seq<char>) -> Seq<char> {
    l.take(scan_to(l, '/'))
}

/// `s` with leading and trailing whitespace removed.
pub open spec fn trimmed(s: Seq<char>) -> Seq<char>
    decreases s.len(),
{
    if s.len() == 0 {
        s
    } else if whitespace_char(s[0]) {
        trimmed(s.drop_first())
    } else if whitespace_char(s.last()) {
        trimmed(s.drop_last())
    } else {
        s
    }
}

/// The candidate word a line offers: its text before the first '/',
/// trimmed.
pub open spec fn candidate_of(l: Seq<char>) -> Seq<char> {
    trimmed(before_slash(l))
}

/// Whether a line's candidate enters a dictionary built for length `len`:
/// it must have exactly `len` characters, keep them under case
/// normalization, and must not start with an uppercase letter.
pub open spec fn accepts(l: Seq<char>, len: nat) -> bool {
    let c = candidate_of(l);
    &&& c.len() == len
    &&& len > 0
    &&& !uppercase_char(c[0])
    &&& upper_of(c).len() == len
}

/// The accepted words of the text `t`, case-normalized, in the order of
/// the lines (separated by '\n') that offered them.
pub open spec fn words_of(t: Seq<char>, len: nat) -> Seq<Seq<char>>
    decreases t.len(),
    via words_of_dec
{
    if t.len() == 0 {
        Seq::empty()
    } else {
        let i = scan_to(t, '\n');
        let line = t.take(i);
        let head: Seq<Seq<char>> = if accepts(line, len) {
            seq![upper_of(candidate_of(line))]
        } else {
            Seq::empty()
        };
        if i == t.len() {
            head
        } else {
            head + words_of(t.skip(i + 1), len)
        }
    }
}

#[via_fn]
proof fn words_of_dec(t: Seq<char>, len: nat) {
    lemma_scan_to(t, '\n');
}

/// The lines of `t`, split on '\n'; the empty text has no lines.
pub open spec fn lines_of(t: Seq<char>) -> Seq<Seq<char>>
    decreases t.len(),
    via lines_of_dec
{
    if t.len() == 0 {
        Seq::empty()
    } else {
        let i = scan_to(t, '\n');
        if i == t.len() {
            seq![t]
        } else {
            seq![t.take(i)] + lines_of(t.skip(i + 1))
        }
    }
}

#[via_fn]
proof fn lines_of_dec(t: Seq<char>) {
    lemma_scan_to(t, '\n');
}

/// The accepted words a list of lines offers, case-normalized, in order:
/// one word for each line that `accepts`, nothing for the rest.
pub open spec fn words_of_lines(ls: Seq<Seq<char>>, len: nat) -> Seq<Seq<char>>
    decreases ls.len(),
{
    if ls.len() == 0 {
        Seq::empty()
    } else {
        (if accepts(ls[0], len) {
            seq![upper_of(candidate_of(ls[0]))]
        } else {
            Seq::<Seq<char>>::empty()
        }) + words_of_lines(ls.drop_first(), len)
    }
}

/// Round trip, line by line: the words of a text are exactly the
/// normalized candidates of its accepting lines, in line order. A text
/// whose lines offer exactly two candidates of the configured length
/// (whatever else its other lines hold) therefore yields exactly those
/// two words, in order.
pub proof fn lemma_words_follow_lines(t: Seq<char>, len: nat)
    ensures
        words_of(t, len) == words_of_lines(lines_of(t), len),
    decreases t.len(),
{
    if t.len() == 0 {
        assert(words_of_lines(lines_of(t), len) =~= Seq::<Seq<char>>::empty());
    } else {
        lemma_scan_to(t, '\n');
        let i = scan_to(t, '\n');
        let ls = lines_of(t);
        if i == t.len() {
            assert(ls[0] == t);
            assert(ls.drop_first() =~= Seq::<Seq<char>>::empty());
            assert(t.take(i) =~= t);
            assert(words_of_lines(Seq::<Seq<char>>::empty(), len) == Seq::<Seq<char>>::empty());
            assert(words_of_lines(ls, len) =~= (if accepts(t, len) {
                seq![upper_of(candidate_of(t))]
            } else {
                Seq::<Seq<char>>::empty()
            }));
            assert(words_of(t, len) == (if accepts(t.take(i), len) {
                seq![upper_of(candidate_of(t.take(i)))]
            } else {
                Seq::<Seq<char>>::empty()
            }));
            assert(words_of(t, len) =~= words_of_lines(ls, len));
        } else {
            lemma_words_follow_lines(t.skip(i + 1), len);
            assert(ls[0] == t.take(i));
            assert(ls.drop_first() =~= lines_of(t.skip(i + 1)));
            assert(words_of(t, len) =~= words_of_lines(ls, len));
        }
    }
}

/// A dictionary of words of one fixed length, built once from raw text
/// and immutable afterwards.
pub struct Dictionary {
    wordlist: Vec<String>,
    wordset: StringHashSet,
    word_length: u32,
}

impl Dictionary {
    /// The accepted words, case-normalized, in line order.
    pub closed spec fn words(&self) -> Seq<Seq<char>> {
        self.wordlist.deep_view()
    }

    /// The set of accepted words, case-normalized.
    pub closed spec fn word_set(&self) -> Set<Seq<char>> {
        self.wordset@
    }

    /// The length this dictionary was built for.
    pub closed spec fn spec_word_length(&self) -> u32 {
        self.word_length
    }

    /// The membership set holds exactly the listed words, and every word
    /// has the configured length.
    pub open spec fn wf(&self) -> bool {
        &&& self.word_set() == self.words().to_set()
        &&& forall|i: int|
            0 <= i < self.words().len() ==> (#[trigger] self.words()[i]).len()
                == self.spec_word_length()
    }

    pub fn new(text_file: &str, word_length: u32) -> (r: Dictionary)
        ensures
            r.wf(),
            r.spec_word_length() == word_length,
            r.words() == words_of(text_file@, word_length as nat),
    {
        let cs = chars_of(text_file);
        let n = cs.len();
        let mut wordlist: Vec<String> = Vec::new();
        let mut wordset = StringHashSet::new();
        let mut pos: usize = 0;
        proof {
            assert(cs@.skip(0) =~= cs@);
            assert(wordlist.deep_view() + words_of(cs@, word_length as nat) =~= words_of(
                cs@,
                word_length as nat,
            ));
            assert(wordlist.deep_view().to_set() =~= Set::<Seq<char>>::empty());
        }
        while pos < n
            invariant
                pos <= n,
                n == cs@.len(),
                cs@ == text_file@,
                wordlist.deep_view() + words_of(cs@.skip(pos as int), word_length as nat)
                    == words_of(cs@, word_length as nat),
                wordset@ == wordlist.deep_view().to_set(),
                forall|i: int|
                    0 <= i < wordlist.deep_view().len() ==> (#[trigger] wordlist.deep_view()[i]).len()
                        == word_length,
            decreases n - pos,
        {
            let ghost len_n = word_length as nat;
            let ghost rem = cs@.skip(pos as int);
            let ghost prev = wordlist.deep_view();
            let end = find_line_end(&cs, pos);
            let ghost line = cs@.subrange(pos as int, end as int);
            proof {
                assert(rem.take(end - pos) =~= line);
            }
            let (lo, hi) = candidate_bounds(&cs, pos, end);
            let ghost cand = candidate_of(line);
            proof {
                assert(cs@.subrange(lo as int, hi as int) == cand);
                assert(cand.len() == hi - lo);
            }
            if word_length > 0 && hi - lo == word_length as usize && !char_is_uppercase(cs[lo]) {
                proof {
                    assert(cand[0] == cs@[lo as int]);
                }
                let mut cv: Vec<char> = Vec::new();
                let mut k: usize = lo;
                while k < hi
                    invariant
                        lo <= k <= hi <= cs@.len(),
                        cv@ == cs@.subrange(lo as int, k as int),
                    decreases hi - k,
                {
                    cv.push(cs[k]);
                    k += 1;
                    proof {
                        assert(cv@ =~= cs@.subrange(lo as int, k as int));
                    }
                }
                let cand_str = string_from_chars(&cv);
                let up = to_upper(cand_str.as_str());
                proof {
                    assert(up@ == upper_of(cand));
                }
                if up.as_str().unicode_len() == word_length as usize {
                    proof {
                        assert(accepts(line, len_n));
                    }
                    wordlist.push(up.clone());
                    wordset.insert(up);
                    proof {
                        assert(wordlist.deep_view() =~= prev + seq![upper_of(cand)]);
                        Seq::<Seq<char>>::lemma_to_set_insert_commutes(prev, upper_of(cand));
                    }
                } else {
                    proof {
                        assert(!accepts(line, len_n));
                    }
                }
            } else {
                proof {
                    assert(!accepts(line, len_n)) by {
                        if word_length > 0 && cand.len() == word_length {
                            assert(cand[0] == cs@[lo as int]);
                        }
                    }
                }
            }
            proof {
                lemma_scan_to(rem, '\n');
                let i = scan_to(rem, '\n');
                assert(i == end - pos);
                assert(rem.take(i) == line);
                assert(rem.len() > 0);
            }
            if end == n {
                proof {
                    assert(scan_to(rem, '\n') == rem.len());
                    assert(words_of(rem, len_n) == (if accepts(line, len_n) {
                        seq![upper_of(cand)]
                    } else {
                        Seq::<Seq<char>>::empty()
                    }));
                    assert(cs@.skip(n as int) =~= Seq::<char>::empty());
                    assert(wordlist.deep_view() + words_of(cs@.skip(n as int), len_n)
                        =~= words_of(cs@, len_n));
                }
                pos = n;
            } else {
                proof {
                    let i = scan_to(rem, '\n');
                    assert(i < rem.len());
                    assert(rem.skip(i + 1) =~= cs@.skip(end + 1));
                    assert(words_of(rem, len_n) == (if accepts(line, len_n) {
                        seq![upper_of(cand)]
                    } else {
                        Seq::<Seq<char>>::empty()
                    }) + words_of(cs@.skip(end + 1), len_n));
                    assert(wordlist.deep_view() + words_of(cs@.skip(end + 1), len_n)
                        =~= words_of(cs@, len_n));
                }
                pos = end + 1;
            }
        }
        proof {
            assert(cs@.skip(n as int) =~= Seq::<char>::empty());
            assert(words_of(Seq::<char>::empty(), word_length as nat) == Seq::<Seq<char>>::empty());
            assert(wordlist.deep_view() =~= words_of(cs@, word_length as nat));
        }
        Dictionary { wordlist, wordset, word_length }
    }

    /// Case-insensitive membership test.
    pub fn contains(&self, word: &str) -> (r: bool)
        ensures
            r == self.word_set().contains(upper_of(word@)),
    {
        let up = to_upper(word);
        self.wordset.contains(up.as_str())
    }

    /// A uniformly random word of the dictionary. The dictionary must be
    /// non-empty; the caller guarantees that before starting gameplay.
    pub fn get_random_word(&self) -> (r: String)
        requires
            self.words().len() > 0,
        ensures
            self.words().contains(r@),
            self.wf() ==> r@.len() == self.spec_word_length(),
    {
        let num = random_below(self.wordlist.len());
        let w = self.wordlist[num].clone();
        proof {
            assert(self.words()[num as int] == w@);
        }
        w
    }

    pub fn get_word_length(&self) -> (r: u32)
        ensures
            r == self.spec_word_length(),
    {
        self.word_length
    }

    /// How many words the dictionary lists (duplicates included).
    pub fn word_count(&self) -> (r: usize)
        ensures
            r == self.words().len(),
    {
        self.wordlist.len()
    }

    /// How many distinct case-normalized words the dictionary holds.
    pub fn distinct_word_count(&self) -> (r: usize)
        ensures
            r == self.word_set().len(),
    {
        self.wordset.len()
    }
}

/// Relies on rand's `gen_range`: a uniform draw from `0..n` lies below
/// `n`; the draw panics on an empty range, which the precondition rules
/// out.
#[verifier::external_body]
fn random_below(n: usize) -> (r: usize)
    requires
        n > 0,
    ensures
        r < n,
{
    rand::Rng::gen_range(&mut rand::thread_rng(), 0..n)
}

/// The end of the line starting at `pos`: the index of the next '\n', or
/// the end of the text.
fn find_line_end(cs: &Vec<char>, pos: usize) -> (end: usize)
    requires
        pos <= cs@.len(),
    ensures
        pos <= end <= cs@.len(),
        forall|k: int| pos <= k < end ==> cs@[k] != '\n',
        end < cs@.len() ==> cs@[end as int] == '\n',
        scan_to(cs@.skip(pos as int), '\n') == end - pos,
{
    let n = cs.len();
    let mut end: usize = pos;
    while end < n && cs[end] != '\n'
        invariant
            pos <= end <= n,
            n == cs@.len(),
            forall|k: int| pos <= k < end ==> cs@[k] != '\n',
        decreases n - end,
    {
        end += 1;
    }
    proof {
        let rem = cs@.skip(pos as int);
        assert forall|m: int| 0 <= m < end - pos implies rem[m] != '\n' by {
            assert(rem[m] == cs@[pos + m]);
        }
        if end < n {
            assert(rem[end - pos] == cs@[end as int]);
        }
        lemma_scan_to_unique(rem, '\n', end - pos);
    }
    end
}

/// The candidate the line `cs[pos..end)` offers: the bounds of its
/// trimmed text before any '/'.
fn candidate_bounds(cs: &Vec<char>, pos: usize, end: usize) -> (r: (usize, usize))
    requires
        pos <= end <= cs@.len(),
    ensures
        ({
            let (lo, hi) = r;
            &&& pos <= lo <= hi <= end
            &&& cs@.subrange(lo as int, hi as int) == candidate_of(
                cs@.subrange(pos as int, end as int),
            )
        }),
{
    let ghost line = cs@.subrange(pos as int, end as int);
    let mut se: usize = pos;
    while se < end && cs[se] != '/'
        invariant
            pos <= se <= end <= cs@.len(),
            forall|k: int| pos <= k < se ==> cs@[k] != '/',
        decreases end - se,
    {
        se += 1;
    }
    proof {
        assert forall|m: int| 0 <= m < se - pos implies line[m] != '/' by {
            assert(line[m] == cs@[pos + m]);
        }
        if se < end {
            assert(line[se - pos] == cs@[se as int]);
        }
        lemma_scan_to_unique(line, '/', se - pos);
        assert(before_slash(line) =~= cs@.subrange(pos as int, se as int));
    }
    let mut lo: usize = pos;
    let mut hi: usize = se;
    while lo < hi && char_is_whitespace(cs[lo])
        invariant
            pos <= lo <= hi <= cs@.len(),
            hi == se,
            trimmed(cs@.subrange(lo as int, hi as int)) == candidate_of(line),
        decreases hi - lo,
    {
        proof {
            let s = cs@.subrange(lo as int, hi as int);
            assert(s[0] == cs@[lo as int]);
            assert(s.drop_first() =~= cs@.subrange(lo + 1, hi as int));
        }
        lo += 1;
    }
    while hi > lo && char_is_whitespace(cs[hi - 1])
        invariant
            pos <= lo <= hi <= se <= cs@.len(),
            trimmed(cs@.subrange(lo as int, hi as int)) == candidate_of(line),
            lo < hi ==> !whitespace_char(cs@[lo as int]),
        decreases hi - lo,
    {
        proof {
            let s = cs@.subrange(lo as int, hi as int);
            assert(s[0] == cs@[lo as int]);
            assert(s.last() == cs@[hi - 1]);
            assert(s.drop_last() =~= cs@.subrange(lo as int, hi - 1));
        }
        hi -= 1;
    }
    proof {
        let s = cs@.subrange(lo as int, hi as int);
        if lo < hi {
            assert(s[0] == cs@[lo as int]);
            assert(s.last() == cs@[hi - 1]);
        }
        assert(s == trimmed(s));
    }
    (lo, hi)
}

} // verus!
