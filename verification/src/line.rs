//! A line of text and literal substring search over its bytes.

use vstd::prelude::*;
use vstd::string::StringSliceAdditionalSpecFns;
use vstd::utf8::encode_utf8;

verus! {

/// `needle` stands in `text` at byte position `at`.
pub open spec fn occurs_at(text: Seq<u8>, needle: Seq<u8>, at: int) -> bool {
    &&& 0 <= at
    &&& at + needle.len() <= text.len()
    &&& text.subrange(at, at + needle.len()) == needle
}

/// `needle` stands somewhere in `text`: literal, case-sensitive containment.
pub open spec fn is_substring(text: Seq<u8>, needle: Seq<u8>) -> bool {
    exists|at: int| occurs_at(text, needle, at)
}

/// The positions `0, 1, .., n - 1`.
pub open spec fn positions(n: nat) -> Seq<int> {
    Seq::new(n, |at: int| at)
}

/// Every byte position at which `needle` stands in `text`, in ascending
/// order. Occurrences may overlap; the empty needle stands at every
/// position, the end of the text included.
pub open spec fn occurrences(text: Seq<u8>, needle: Seq<u8>) -> Seq<int> {
    positions(text.len() + 1).filter(|at: int| occurs_at(text, needle, at))
}

/// `occurrences` holds exactly the positions at which the needle stands, and
/// holds them in strictly ascending order.
pub proof fn lemma_occurrences(text: Seq<u8>, needle: Seq<u8>)
    ensures
        forall|k: int|
            0 <= k < occurrences(text, needle).len() ==> occurs_at(
                text,
                needle,
                #[trigger] occurrences(text, needle)[k],
            ),
        forall|at: int|
            occurs_at(text, needle, at) ==> #[trigger] occurrences(text, needle).contains(at),
        forall|j: int, k: int|
            0 <= j < k < occurrences(text, needle).len() ==> occurrences(text, needle)[j]
                < occurrences(text, needle)[k],
        is_substring(text, needle) <==> occurrences(text, needle).len() > 0,
{
    let pred = |at: int| occurs_at(text, needle, at);
    lemma_ascending_filter((text.len() + 1) as nat, pred);
    let found = occurrences(text, needle);
    if is_substring(text, needle) {
        let at = choose|at: int| occurs_at(text, needle, at);
        assert(found.contains(at));
    }
    if found.len() > 0 {
        assert(pred(found[0]));
        assert(occurs_at(text, needle, found[0]));
    }
}

/// Filtering `0, .., n - 1` keeps exactly the positions that satisfy the
/// predicate and keeps them in ascending order.
pub proof fn lemma_ascending_filter(n: nat, pred: spec_fn(int) -> bool)
    ensures
        forall|k: int|
            0 <= k < positions(n).filter(pred).len() ==> {
                &&& 0 <= #[trigger] positions(n).filter(pred)[k] < n
                &&& pred(positions(n).filter(pred)[k])
            },
        forall|at: int|
            0 <= at < n && pred(at) ==> #[trigger] positions(n).filter(pred).contains(at),
        forall|j: int, k: int|
            0 <= j < k < positions(n).filter(pred).len() ==> positions(n).filter(pred)[j]
                < positions(n).filter(pred)[k],
    decreases n,
{
    if n == 0 {
        reveal(Seq::filter);
        assert(positions(0).filter(pred).len() == 0);
    } else {
        let shorter = positions((n - 1) as nat);
        let last = n - 1;
        lemma_ascending_filter((n - 1) as nat, pred);
        assert(positions(n) =~= shorter.push(last));
        shorter.lemma_filter_push(last, pred);
        let kept = positions(n).filter(pred);
        assert forall|at: int| 0 <= at < n && pred(at) implies #[trigger] kept.contains(at) by {
            if at == last {
                assert(kept[kept.len() - 1] == at);
            } else {
                assert(shorter.filter(pred).contains(at));
                let k = choose|k: int|
                    0 <= k < shorter.filter(pred).len() && shorter.filter(pred)[k] == at;
                assert(kept[k] == at);
            }
        }
    }
}

/// One logical line of text as it was ingested.
#[derive(Debug)]
pub struct Line {
    pub content: String,
}

impl View for Line {
    type V = Seq<u8>;

    /// A line is the sequence of its bytes.
    open spec fn view(&self) -> Seq<u8> {
        encode_utf8(self.content@)
    }
}

impl Clone for Line {
    fn clone(&self) -> (copy: Line)
        ensures
            copy == *self,
    {
        Line { content: self.content.clone() }
    }
}

/// Whether `needle` stands in `text` at position `at`.
fn matches_at(text: &[u8], needle: &[u8], at: usize) -> (found: bool)
    requires
        at + needle@.len() <= text@.len(),
    ensures
        found == occurs_at(text@, needle@, at as int),
{
    let width = needle.len();
    let length = text.len();
    let mut k: usize = 0;
    while k < width
        invariant
            k <= width == needle@.len(),
            at + width <= length == text@.len(),
            forall|j: int| 0 <= j < k ==> text@[at + j] == needle@[j],
        decreases width - k,
    {
        if text[at + k] != needle[k] {
            proof {
                let window = text@.subrange(at as int, at + width);
                assert(window[k as int] == text@[at + k]);
            }
            return false;
        }
        k += 1;
    }
    assert(text@.subrange(at as int, at + width) =~= needle@);
    true
}

impl Line {
    /// A line of this text.
    pub fn new(content: String) -> (line: Line)
        ensures
            line.content == content,
    {
        Line { content }
    }

    /// Whether the line contains `text` literally. The comparison is made
    /// byte by byte, so it is case-sensitive and knows no normalization.
    pub fn contains(&self, text: &str) -> (found: bool)
        ensures
            found == is_substring(self@, text.spec_bytes()),
    {
        let hay = self.content.as_str().as_bytes();
        let needle = text.as_bytes();
        assert(hay@ == self@);
        if needle.len() > hay.len() {
            return false;
        }
        let last: usize = hay.len() - needle.len();
        let mut at: usize = 0;
        loop
            invariant
                hay@ == self@,
                needle@ == text.spec_bytes(),
                last + needle@.len() == hay@.len(),
                at <= last,
                forall|p: int| 0 <= p < at ==> !occurs_at(hay@, needle@, p),
            ensures
                forall|p: int| !occurs_at(hay@, needle@, p),
            decreases last - at,
        {
            if matches_at(hay, needle, at) {
                return true;
            }
            if at == last {
                break;
            }
            at += 1;
        }
        false
    }

    /// The byte positions of every occurrence of `text` in the line, in
    /// ascending order.
    pub fn matches_for(&self, text: &str) -> (found: Vec<usize>)
        ensures
            found@.map_values(|at: usize| at as int) == occurrences(self@, text.spec_bytes()),
    {
        let hay = self.content.as_str().as_bytes();
        let needle = text.as_bytes();
        assert(hay@ == self@);
        let mut found: Vec<usize> = Vec::new();
        let ghost pred = |at: int| occurs_at(hay@, needle@, at);
        if needle.len() > hay.len() {
            proof {
                positions((hay@.len() + 1) as nat).lemma_all_neg_filter_empty(pred);
                assert(found@.map_values(|at: usize| at as int) =~= occurrences(hay@, needle@));
            }
            return found;
        }
        let last: usize = hay.len() - needle.len();
        let mut at: usize = 0;
        proof {
            reveal(Seq::filter);
            assert(positions(0).filter(pred) =~= Seq::<int>::empty());
        }
        loop
            invariant_except_break
                found@.map_values(|at: usize| at as int) =~= positions(at as nat).filter(pred),
            invariant
                last + needle@.len() == hay@.len(),
                at <= last,
                pred == |at: int| occurs_at(hay@, needle@, at),
            ensures
                found@.map_values(|at: usize| at as int) =~= positions((last + 1) as nat).filter(
                    pred,
                ),
            decreases last - at,
        {
            let here = matches_at(hay, needle, at);
            proof {
                assert(positions((at + 1) as nat) =~= positions(at as nat).push(at as int));
                positions(at as nat).lemma_filter_push(at as int, pred);
            }
            if here {
                found.push(at);
            }
            if at == last {
                break;
            }
            at += 1;
        }
        proof {
            lemma_filter_tail((last + 1) as nat, (hay@.len() + 1) as nat, pred);
        }
        found
    }
}

/// Positions that all fail the predicate add nothing to a filter.
proof fn lemma_filter_tail(from: nat, to: nat, pred: spec_fn(int) -> bool)
    requires
        from <= to,
        forall|at: int| from <= at < to ==> !#[trigger] pred(at),
    ensures
        positions(to).filter(pred) == positions(from).filter(pred),
    decreases to - from,
{
    if from < to {
        let shorter = positions((to - 1) as nat);
        lemma_filter_tail(from, (to - 1) as nat, pred);
        assert(positions(to) =~= shorter.push(to - 1));
        shorter.lemma_filter_push(to - 1, pred);
    }
}

} // verus!
