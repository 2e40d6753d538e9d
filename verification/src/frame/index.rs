//! Row labels shared by the Series of a DataFrame.
use vstd::prelude::*;
use crate::error::RusantaError;
use crate::frame::error::{Error, Result};
use crate::frame::text::{decimal, decimal_string, same_text};
use crate::frame::text;

verus! {

/// No label occurs twice.
pub open spec fn distinct_labels(s: Seq<Seq<char>>) -> bool {
    forall|i: int, j: int| 0 <= i < s.len() && 0 <= j < s.len() && i != j ==> s[i] != s[j]
}

/// The default labels `"0", "1", ..., "n-1"`.
pub open spec fn range_labels(n: nat) -> Seq<Seq<char>> {
    Seq::new(n, |i: int| decimal(i as nat))
}

/// Position of a label known to occur in `s`.
pub open spec fn label_position(s: Seq<Seq<char>>, x: Seq<char>) -> int {
    choose|j: int| 0 <= j < s.len() && s[j] == x
}

/// Positions `i` of `a` (in order) whose label also occurs in `b`, among the first `k`.
pub open spec fn aligned_positions(a: Seq<Seq<char>>, b: Seq<Seq<char>>, k: int) -> Seq<usize>
    decreases k,
{
    if k <= 0 {
        Seq::empty()
    } else if b.contains(a[k - 1]) {
        aligned_positions(a, b, k - 1).push((k - 1) as usize)
    } else {
        aligned_positions(a, b, k - 1)
    }
}

/// No two strings of the vector are equal.
pub fn distinct_strings(labels: &Vec<String>) -> (r: bool)
    ensures
        r == distinct_labels(labels@.map_values(|s: String| s@)),
{
    let ghost v = labels@.map_values(|s: String| s@);
    let n = labels.len();
    let mut i: usize = 0;
    while i < n
        invariant
            n == labels@.len(),
            v == labels@.map_values(|s: String| s@),
            i <= n,
            forall|a: int, b: int| 0 <= a < i && 0 <= b < n && a != b ==> v[a] != v[b],
        decreases n - i,
    {
        let mut j: usize = 0;
        while j < n
            invariant
                n == labels@.len(),
                v == labels@.map_values(|s: String| s@),
                i < n,
                j <= n,
                forall|a: int, b: int| 0 <= a < i && 0 <= b < n && a != b ==> v[a] != v[b],
                forall|b: int| 0 <= b < j && b != i ==> v[i as int] != v[b],
            decreases n - j,
        {
            if j != i && labels[i] == labels[j] {
                proof {
                    assert(v[i as int] == v[j as int]);
                }
                return false;
            }
            j = j + 1;
        }
        i = i + 1;
    }
    true
}

/// An ordered set of distinct string labels.
#[derive(Debug)]
pub struct Index {
    labels: Vec<String>,
}

impl View for Index {
    type V = Seq<Seq<char>>;

    closed spec fn view(&self) -> Seq<Seq<char>> {
        Seq::new(self.labels@.len(), |i: int| self.labels@[i]@)
    }
}

impl Index {
    /// The labels are distinct.
    #[verifier::type_invariant]
    pub open spec fn inv(self) -> bool {
        &&& distinct_labels(self@)
        &&& self@.len() <= isize::MAX
    }

    /// Labels `"0" .. "n-1"`.
    pub fn range(n: usize) -> (r: Index)
        requires
            n <= isize::MAX,
        ensures
            r@ == range_labels(n as nat),
    {
        let mut labels: Vec<String> = Vec::new();
        let mut i: usize = 0;
        while i < n
            invariant
                i <= n,
                labels@.len() == i,
                forall|k: int| 0 <= k < i ==> #[trigger] labels@[k]@ == decimal(k as nat),
            decreases n - i,
        {
            labels.push(decimal_string(i));
            i = i + 1;
        }
        let ghost v = Seq::new(labels@.len(), |k: int| labels@[k]@);
        proof {
            assert(v =~= range_labels(n as nat));
            assert forall|a: int, b: int| 0 <= a < n && 0 <= b < n && a != b implies v[a] != v[b] by {
                if v[a] == v[b] {
                    text::lemma_decimal_injective(a as nat, b as nat);
                }
            }
        }
        Index { labels }
    }

    /// Creates an index from labels, which must be distinct.
    pub fn new(labels: Vec<String>) -> (r: Result<Index>)
        requires
            labels@.len() <= isize::MAX,
        ensures
            distinct_labels(labels@.map_values(|s: String| s@)) ==> (r matches Ok(x) && x@ == labels@.map_values(
                |s: String| s@,
            )),
            !distinct_labels(labels@.map_values(|s: String| s@)) ==> (r matches Err(Error::InvalidValue(m)) && m@
                == "duplicate index label"@),
    {
        if !distinct_strings(&labels) {
            return Err(Error::InvalidValue(String::from_str("duplicate index label")));
        }
        let ghost v = labels@.map_values(|s: String| s@);
        proof {
            assert(Seq::new(labels@.len(), |k: int| labels@[k]@) =~= v);
        }
        Ok(Index { labels })
    }

    /// Number of labels.
    pub fn len(&self) -> (r: usize)
        ensures
            r == self@.len(),
            r <= isize::MAX,
    {
        proof {
            use_type_invariant(self);
        }
        self.labels.len()
    }

    /// There are no labels.
    pub fn is_empty(&self) -> (r: bool)
        ensures
            r == (self@.len() == 0),
    {
        self.labels.len() == 0
    }

    /// Label at a position.
    pub fn label(&self, p: usize) -> (r: Result<&str>)
        ensures
            p < self@.len() ==> (r matches Ok(s) && s@ == self@[p as int]),
            p >= self@.len() ==> (r matches Err(Error::Core(e)) && e == (RusantaError::IndexOutOfBounds {
                index: p,
                len: self@.len() as usize,
            })),
    {
        if p >= self.labels.len() {
            return Err(Error::Core(RusantaError::IndexOutOfBounds { index: p, len: self.labels.len() }));
        }
        Ok(self.labels[p].as_str())
    }

    /// Position of a label.
    pub fn position(&self, label: &str) -> (r: Result<usize>)
        ensures
            self@.contains(label@) ==> r == Ok::<usize, Error>(label_position(self@, label@) as usize),
            !self@.contains(label@) ==> (r matches Err(Error::KeyNotFound(k)) && k@ == label@),
    {
        proof {
            use_type_invariant(self);
        }
        let mut i: usize = 0;
        while i < self.labels.len()
            invariant
                i <= self@.len(),
                self@.len() == self.labels@.len(),
                distinct_labels(self@),
                forall|k: int| 0 <= k < i ==> self@[k] != label@,
            decreases self@.len() - i,
        {
            if same_text(&self.labels[i], label) {
                proof {
                    assert(self@[i as int] == label@);
                    let j = label_position(self@, label@);
                    assert(self@[j] == label@);
                }
                return Ok(i);
            }
            i = i + 1;
        }
        proof {
            if self@.contains(label@) {
                let k = choose|k: int| 0 <= k < self@.len() && self@[k] == label@;
                assert(self@[k] == label@);
            }
        }
        Err(Error::KeyNotFound(String::from_str(label)))
    }

    /// Inner alignment: positions in both indexes of the labels of `self` that
    /// also occur in `other`, in the order of `self`.
    pub fn align(&self, other: &Index) -> (r: (Vec<usize>, Vec<usize>))
        ensures
            r.0@ == aligned_positions(self@, other@, self@.len() as int),
            r.1@.len() == r.0@.len(),
            forall|k: int| 0 <= k < r.1@.len() ==> #[trigger] r.1@[k] as int == label_position(other@, self@[r.0@[k] as int]),
            forall|k: int| 0 <= k < r.1@.len() ==> #[trigger] other@[r.1@[k] as int] == self@[r.0@[k] as int],
            forall|k: int| 0 <= k < r.1@.len() ==> r.0@[k] < self@.len() && r.1@[k] < other@.len(),
    {
        let olen = other.labels.len();
        let mut l: Vec<usize> = Vec::new();
        let mut rr: Vec<usize> = Vec::new();
        let mut i: usize = 0;
        while i < self.labels.len()
            invariant
                i <= self@.len(),
                self@.len() == self.labels@.len(),
                olen == other@.len(),
                l@ == aligned_positions(self@, other@, i as int),
                rr@.len() == l@.len(),
                forall|k: int| 0 <= k < rr@.len() ==> #[trigger] rr@[k] as int == label_position(other@, self@[l@[k] as int]),
                forall|k: int| 0 <= k < rr@.len() ==> #[trigger] other@[rr@[k] as int] == self@[l@[k] as int],
                forall|k: int| 0 <= k < rr@.len() ==> l@[k] < i && rr@[k] < other@.len(),
            decreases self@.len() - i,
        {
            let lab: &str = self.labels[i].as_str();
            proof {
                assert(self.labels@[i as int]@ == self@[i as int]);
                assert(lab@ == self@[i as int]);
            }
            let found = other.position(lab);
            proof {
                if other@.contains(lab@) {
                    assert(found == Ok::<usize, Error>(label_position(other@, lab@) as usize));
                }
            }
            match found {
                Ok(j) => {
                    let ghost x = self@[i as int];
                    proof {
                        assert(other@.contains(x));
                        let lp = label_position(other@, x);
                        assert(0 <= lp < other@.len() && other@[lp] == x);
                        assert(found == Ok::<usize, Error>(lp as usize));
                        assert(j as int == label_position(other@, x));
                        let w = choose|w: int| 0 <= w < other@.len() && other@[w] == x;
                        assert(other@[w] == x);
                        assert(other@[j as int] == x);
                    }
                    l.push(i);
                    rr.push(j);
                    proof {
                        assert(l@[l@.len() - 1] == i);
                        assert(rr@[rr@.len() - 1] == j);
                    }
                },
                Err(_) => {
                    proof {
                        assert(!other@.contains(self@[i as int]));
                    }
                },
            }
            i = i + 1;
        }
        (l, rr)
    }

    /// The two indexes hold the same labels in the same order.
    pub fn same_labels(&self, other: &Index) -> (r: bool)
        ensures
            r == (self@ == other@),
    {
        if self.labels.len() != other.labels.len() {
            proof {
                assert(self@.len() != other@.len());
            }
            return false;
        }
        let mut i: usize = 0;
        while i < self.labels.len()
            invariant
                i <= self@.len(),
                self@.len() == self.labels@.len(),
                other@.len() == other.labels@.len(),
                self@.len() == other@.len(),
                forall|k: int| 0 <= k < i ==> self@[k] == other@[k],
            decreases self@.len() - i,
        {
            if self.labels[i] != other.labels[i] {
                proof {
                    assert(self@[i as int] != other@[i as int]);
                }
                return false;
            }
            i = i + 1;
        }
        proof {
            assert(self@ =~= other@);
        }
        true
    }
}

impl Clone for Index {
    fn clone(&self) -> (r: Self)
        ensures
            r@ == self@,
    {
        proof {
            use_type_invariant(self);
        }
        let mut labels: Vec<String> = Vec::new();
        let mut i: usize = 0;
        while i < self.labels.len()
            invariant
                i <= self.labels@.len(),
                labels@.len() == i,
                forall|k: int| 0 <= k < i ==> #[trigger] labels@[k]@ == self.labels@[k]@,
            decreases self.labels@.len() - i,
        {
            labels.push(self.labels[i].clone());
            i = i + 1;
        }
        proof {
            assert(Seq::new(labels@.len(), |k: int| labels@[k]@) =~= self@);
        }
        Index { labels }
    }
}

} // verus!
