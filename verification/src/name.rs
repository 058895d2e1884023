//! Canonical, case-insensitive DNS names.
//!
//! A `DomainName` is an ordered sequence of labels (`corp`, `example`, `com`),
//! each held as lowercased ASCII bytes with the trailing dot stripped at
//! construction. Zone membership (`is_zone_of`) is a label-suffix test.

use vstd::prelude::*;
use vstd::string::StringSliceAdditionalSpecFns;

verus! {

/// A byte that may appear inside a normalized label: ASCII, not a dot,
/// not an uppercase letter (uppercase is folded at construction).
pub open spec fn normal_byte(b: u8) -> bool {
    b < 128 && b != 46 && !(65 <= b <= 90)
}

/// A normalized label: nonempty, made of normal bytes.
pub open spec fn normal_label(l: Seq<u8>) -> bool {
    l.len() > 0 && forall|i: int| 0 <= i < l.len() ==> normal_byte(l[i])
}

/// ASCII case folding of one byte.
pub open spec fn lower_byte(b: u8) -> u8 {
    if 65 <= b <= 90 {
        (b + 32) as u8
    } else {
        b
    }
}

/// ASCII case folding of a byte sequence.
pub open spec fn lower(s: Seq<u8>) -> Seq<u8> {
    s.map(|i: int, b: u8| lower_byte(b))
}

/// The input with one trailing dot removed, if present.
pub open spec fn strip_trailing_dot(s: Seq<u8>) -> Seq<u8> {
    if s.len() > 0 && s.last() == 46u8 {
        s.drop_last()
    } else {
        s
    }
}

/// The byte sequences that parse as a domain name: ASCII throughout, and,
/// after stripping one trailing dot, no empty label (no leading dot, no
/// trailing dot, no two dots in a row). The empty name (the DNS root) is valid.
pub open spec fn valid_name_bytes(s: Seq<u8>) -> bool {
    let c = strip_trailing_dot(s);
    &&& forall|i: int| 0 <= i < s.len() ==> s[i] < 128
    &&& (c.len() == 0 || (c[0] != 46 && c[c.len() - 1] != 46 && forall|i: int|
        0 < i < c.len() ==> !(c[i - 1] == 46 && #[trigger] c[i] == 46)))
}

/// Labels joined with dots, the canonical textual form (no trailing dot).
pub open spec fn joined(ls: Seq<Seq<u8>>) -> Seq<u8>
    decreases ls.len(),
{
    if ls.len() == 0 {
        Seq::empty()
    } else if ls.len() == 1 {
        ls[0]
    } else {
        joined(ls.drop_last()) + seq![46u8] + ls.last()
    }
}

/// The canonical textual form of a name as characters, for use as a log key.
pub open spec fn host_chars(n: Seq<Seq<u8>>) -> Seq<char> {
    joined(n).map(|i: int, b: u8| b as char)
}

/// `z` is an ancestor-or-equal zone of `n`: `z`'s labels are a suffix,
/// in order, of `n`'s labels.
pub open spec fn is_label_suffix(z: Seq<Seq<u8>>, n: Seq<Seq<u8>>) -> bool {
    z.len() <= n.len() && z == n.skip(n.len() - z.len())
}

/// The label views of a vector of labels.
pub open spec fn labels_view(v: Seq<Vec<u8>>) -> Seq<Seq<u8>> {
    Seq::new(v.len(), |i: int| v[i]@)
}

/// An immutable, canonical DNS name: normalized labels, compared
/// case-insensitively by construction.
pub struct DomainName {
    labels: Vec<Vec<u8>>,
}

impl View for DomainName {
    type V = Seq<Seq<u8>>;

    closed spec fn view(&self) -> Seq<Seq<u8>> {
        labels_view(self.labels@)
    }
}

proof fn lemma_labels_view_push(v: Seq<Vec<u8>>, x: Vec<u8>)
    ensures
        labels_view(v.push(x)) == labels_view(v).push(x@),
{
    assert(labels_view(v.push(x)) =~= labels_view(v).push(x@));
}

proof fn lemma_joined_push(lm: Seq<Seq<u8>>, x: Seq<u8>)
    ensures
        joined(lm.push(x)) == if lm.len() == 0 {
            x
        } else {
            joined(lm) + seq![46u8] + x
        },
{
    assert(lm.push(x).drop_last() =~= lm);
    if lm.len() == 0 {
        assert(joined(lm.push(x)) == lm.push(x)[0]);
    }
}

/// ASCII case folding of one byte, executable form.
fn to_lower(b: u8) -> (r: u8)
    ensures
        r == lower_byte(b),
{
    if 65 <= b && b <= 90 {
        b + 32
    } else {
        b
    }
}

/// Relies on `String::from_utf8`: ASCII bytes are valid UTF-8 and decode to
/// the characters with the same code points, so with the all-ASCII
/// precondition the call always returns `Ok` of exactly those characters.
#[verifier::external_body]
fn ascii_bytes_to_string(v: Vec<u8>) -> (r: String)
    requires
        forall|i: int| 0 <= i < v@.len() ==> v@[i] < 128,
    ensures
        r@ == v@.map(|i: int, b: u8| b as char),
{
    match String::from_utf8(v) {
        Ok(s) => s,
        Err(_) => String::new(),
    }
}

fn bytes_eq(a: &Vec<u8>, b: &Vec<u8>) -> (r: bool)
    ensures
        r == (a@ == b@),
{
    if a.len() != b.len() {
        return false;
    }
    let mut i: usize = 0;
    while i < a.len()
        invariant
            a@.len() == b@.len(),
            0 <= i <= a@.len(),
            forall|j: int| 0 <= j < i ==> a@[j] == b@[j],
        decreases a@.len() - i,
    {
        if a[i] != b[i] {
            return false;
        }
        i = i + 1;
    }
    proof {
        assert(a@ =~= b@);
    }
    true
}

impl DomainName {
    #[verifier::type_invariant]
    spec fn inv(self) -> bool {
        forall|i: int| 0 <= i < self@.len() ==> normal_label(self@[i])
    }

    /// The number of labels.
    pub fn label_count(&self) -> (r: usize)
        ensures
            r == self@.len(),
    {
        self.labels.len()
    }

    /// Whether two names are the same (they were normalized at construction,
    /// so this is case-insensitive equality).
    pub fn same_name(&self, other: &DomainName) -> (r: bool)
        ensures
            r == (self@ == other@),
    {
        if self.labels.len() != other.labels.len() {
            return false;
        }
        let mut i: usize = 0;
        while i < self.labels.len()
            invariant
                self@.len() == other@.len(),
                self@.len() == self.labels@.len(),
                other@.len() == other.labels@.len(),
                0 <= i <= self@.len(),
                forall|j: int| 0 <= j < i ==> self@[j] == other@[j],
            decreases self@.len() - i,
        {
            if !bytes_eq(&self.labels[i], &other.labels[i]) {
                proof {
                    assert(self@[i as int] == self.labels@[i as int]@);
                    assert(other@[i as int] == other.labels@[i as int]@);
                }
                return false;
            }
            i = i + 1;
        }
        proof {
            assert(self@ =~= other@);
        }
        true
    }

    /// Whether `self` is an ancestor-or-equal zone of `other`: `self`'s
    /// labels are a suffix, in order, of `other`'s labels. Reflexive.
    pub fn is_zone_of(&self, other: &DomainName) -> (r: bool)
        ensures
            r == is_label_suffix(self@, other@),
    {
        let zl = self.labels.len();
        let nl = other.labels.len();
        if zl > nl {
            return false;
        }
        let off = nl - zl;
        let mut i: usize = 0;
        while i < zl
            invariant
                zl == self@.len(),
                nl == other@.len(),
                zl <= nl,
                off == nl - zl,
                zl == self.labels@.len(),
                nl == other.labels@.len(),
                0 <= i <= zl,
                forall|j: int| 0 <= j < i ==> self@[j] == other@[off + j],
            decreases zl - i,
        {
            if !bytes_eq(&self.labels[i], &other.labels[off + i]) {
                proof {
                    let tail = other@.skip(other@.len() - self@.len());
                    assert(tail[i as int] == other@[off + i]);
                }
                return false;
            }
            i = i + 1;
        }
        proof {
            assert(self@ =~= other@.skip(other@.len() - self@.len()));
        }
        true
    }

    /// An owned copy of the name.
    pub fn duplicate(&self) -> (r: DomainName)
        ensures
            r@ == self@,
    {
        proof {
            use_type_invariant(self);
        }
        let mut labels: Vec<Vec<u8>> = Vec::new();
        let mut i: usize = 0;
        while i < self.labels.len()
            invariant
                self.labels@.len() == self@.len(),
                0 <= i <= self@.len(),
                labels_view(labels@) == self@.take(i as int),
                forall|j: int| 0 <= j < self@.len() ==> normal_label(self@[j]),
            decreases self@.len() - i,
        {
            let mut lab: Vec<u8> = Vec::new();
            let mut j: usize = 0;
            while j < self.labels[i].len()
                invariant
                    i < self.labels@.len(),
                    self.labels@.len() == self@.len(),
                    0 <= j <= self@[i as int].len(),
                    self@[i as int].len() == self.labels@[i as int]@.len(),
                    lab@ == self@[i as int].take(j as int),
                decreases self@[i as int].len() - j,
            {
                let b = self.labels[i][j];
                lab.push(b);
                proof {
                    assert(lab@ =~= self@[i as int].take(j + 1));
                }
                j = j + 1;
            }
            proof {
                assert(lab@ =~= self@[i as int]);
                lemma_labels_view_push(labels@, lab);
            }
            labels.push(lab);
            proof {
                assert(labels_view(labels@) =~= self@.take(i + 1));
            }
            i = i + 1;
        }
        proof {
            assert(labels_view(labels@) =~= self@);
        }
        DomainName { labels }
    }

    /// Parses a textual name: ASCII only, labels split on dots, uppercase
    /// folded to lowercase, one trailing dot allowed and stripped. Returns
    /// `None` exactly on inputs with a non-ASCII byte or an empty label.
    pub fn parse(s: &str) -> (r: Option<DomainName>)
        ensures
            r is Some <==> valid_name_bytes(s.spec_bytes()),
            r matches Some(d) ==> joined(d@) == lower(strip_trailing_dot(s.spec_bytes())),
            r matches Some(d) ==> forall|i: int| 0 <= i < d@.len() ==> normal_label(
                #[trigger] d@[i],
            ),
    {
        let bytes: &[u8] = s.as_bytes();
        let n = bytes.len();
        let ghost sb = s.spec_bytes();
        let mut end: usize = n;
        if n > 0 && bytes[n - 1] == 46 {
            end = n - 1;
        }
        let ghost c = strip_trailing_dot(sb);
        let ghost lc = lower(c);
        proof {
            assert(c =~= sb.take(end as int));
            assert(lc.len() == c.len());
        }
        let mut labels: Vec<Vec<u8>> = Vec::new();
        let mut cur: Vec<u8> = Vec::new();
        let mut i: usize = 0;
        while i < end
            invariant
                sb == s.spec_bytes(),
                bytes@ == sb,
                n == sb.len(),
                end <= n,
                c == strip_trailing_dot(sb),
                c == sb.take(end as int),
                c.len() == end,
                lc == lower(c),
                lc.len() == end,
                0 <= i <= end,
                forall|j: int| 0 <= j < i ==> c[j] < 128,
                i > 0 ==> c[0] != 46,
                forall|j: int| 0 < j < i ==> !(c[j - 1] == 46 && #[trigger] c[j] == 46),
                i > 0 ==> (cur@.len() == 0 <==> c[i - 1] == 46),
                i == 0 ==> cur@.len() == 0 && labels@.len() == 0,
                if labels@.len() == 0 {
                    lc.take(i as int) == cur@
                } else {
                    lc.take(i as int) == joined(labels_view(labels@)) + seq![46u8] + cur@
                },
                forall|j: int|
                    0 <= j < labels@.len() ==> normal_label(#[trigger] labels_view(labels@)[j]),
                forall|j: int| 0 <= j < cur@.len() ==> normal_byte(#[trigger] cur@[j]),
            decreases end - i,
        {
            let b = bytes[i];
            proof {
                assert(c[i as int] == sb[i as int]);
            }
            if b >= 128 {
                proof {
                    assert(sb[i as int] >= 128);
                    assert(!valid_name_bytes(sb));
                }
                return None;
            }
            if b == 46 {
                if cur.len() == 0 {
                    proof {
                        let cc = strip_trailing_dot(sb);
                        assert(cc == c);
                        if i == 0 {
                            assert(cc[0] == 46);
                            assert(!valid_name_bytes(sb));
                        } else {
                            assert(cc[i - 1] == 46 && cc[i as int] == 46);
                            assert(!valid_name_bytes(sb));
                        }
                    }
                    return None;
                }
                proof {
                    lemma_labels_view_push(labels@, cur);
                    lemma_joined_push(labels_view(labels@), cur@);
                    if labels@.len() == 0 {
                        assert(lc.take(i + 1) =~= cur@ + seq![46u8]);
                        assert(joined(labels_view(labels@).push(cur@)) == cur@);
                        assert(lc.take(i + 1) =~= joined(labels_view(labels@).push(cur@))
                            + seq![46u8] + Seq::<u8>::empty());
                    } else {
                        assert(lc.take(i + 1) =~= (joined(labels_view(labels@)) + seq![46u8]
                            + cur@) + seq![46u8] + Seq::<u8>::empty());
                    }
                }
                labels.push(cur);
                cur = Vec::new();
            } else {
                let lb = to_lower(b);
                cur.push(lb);
                proof {
                    assert(lc[i as int] == lower_byte(c[i as int]));
                    assert(lc.take(i + 1) =~= lc.take(i as int).push(lc[i as int]));
                    if labels@.len() > 0 {
                        assert(lc.take(i + 1) =~= joined(labels_view(labels@)) + seq![46u8]
                            + cur@);
                    }
                    assert(normal_byte(lower_byte(c[i as int])));
                }
            }
            i = i + 1;
        }
        if end > 0 {
            if cur.len() == 0 {
                proof {
                    assert(c[end - 1] == 46);
                    assert(!valid_name_bytes(sb));
                }
                return None;
            }
            proof {
                lemma_labels_view_push(labels@, cur);
                lemma_joined_push(labels_view(labels@), cur@);
                assert(lc.take(end as int) =~= lc);
                if labels@.len() == 0 {
                    assert(joined(labels_view(labels@).push(cur@)) == cur@);
                }
            }
            labels.push(cur);
        }
        proof {
            if end == 0 {
                assert(lc =~= Seq::<u8>::empty());
                assert(joined(labels_view(labels@)) == lc);
                if n > 0 {
                    assert(sb.last() == 46);
                    assert(forall|j: int| 0 <= j < sb.len() ==> sb[j] < 128);
                }
            } else {
                assert(end < n ==> sb.last() == 46);
                assert forall|j: int| 0 <= j < sb.len() implies sb[j] < 128 by {
                    if j < end {
                        assert(sb.take(end as int)[j] == sb[j]);
                        assert(c[j] < 128);
                    } else {
                        assert(j == sb.len() - 1 && sb.last() == 46);
                    }
                }
            }
            assert(valid_name_bytes(sb));
        }
        Some(DomainName { labels })
    }

    /// The canonical textual form, labels joined with dots, no trailing dot.
    /// This is the exact key under which a corporate host is logged.
    pub fn to_host_string(&self) -> (r: String)
        ensures
            r@ == host_chars(self@),
    {
        proof {
            use_type_invariant(self);
        }
        let mut out: Vec<u8> = Vec::new();
        let mut i: usize = 0;
        while i < self.labels.len()
            invariant
                self.labels@.len() == self@.len(),
                0 <= i <= self@.len(),
                out@ == joined(self@.take(i as int)),
                i == 0 ==> out@.len() == 0,
                forall|j: int| 0 <= j < self@.len() ==> normal_label(self@[j]),
                forall|j: int| 0 <= j < out@.len() ==> out@[j] < 128,
            decreases self@.len() - i,
        {
            if i > 0 {
                out.push(46);
            }
            let ghost mid = out@;
            let mut j: usize = 0;
            while j < self.labels[i].len()
                invariant
                    i < self.labels@.len(),
                    self.labels@.len() == self@.len(),
                    0 <= j <= self@[i as int].len(),
                    self@[i as int].len() == self.labels@[i as int]@.len(),
                    out@ == mid + self@[i as int].take(j as int),
                    forall|k: int| 0 <= k < self@.len() ==> normal_label(self@[k]),
                    forall|k: int| 0 <= k < mid.len() ==> mid[k] < 128,
                    forall|k: int| 0 <= k < out@.len() ==> out@[k] < 128,
                decreases self@[i as int].len() - j,
            {
                let b = self.labels[i][j];
                out.push(b);
                proof {
                    assert(out@ =~= mid + self@[i as int].take(j + 1));
                }
                j = j + 1;
            }
            proof {
                assert(self@[i as int].take(self@[i as int].len() as int) =~= self@[i as int]);
                assert(self@.take(i + 1).drop_last() =~= self@.take(i as int));
                if i == 0 {
                    assert(self@.take(1) =~= seq![self@[0]]);
                    assert(joined(self@.take(1)) == self@[0]);
                    assert(out@ =~= self@[0]);
                } else {
                    assert(out@ =~= joined(self@.take(i as int)) + seq![46u8] + self@[i as int]);
                }
            }
            i = i + 1;
        }
        proof {
            assert(self@.take(self@.len() as int) =~= self@);
        }
        ascii_bytes_to_string(out)
    }
}

/// Zone membership is reflexive: every name is a zone of itself.
pub proof fn lemma_zone_of_reflexive(n: DomainName)
    ensures
        is_label_suffix(n@, n@),
{
    assert(n@.skip(0) =~= n@);
}

} // verus!
