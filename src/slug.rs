use crate::normalize::{chars_of, slugified, slugify, string_of};
use vstd::prelude::*;

verus! {

/// The decimal digit for `d` in `0..10`.
pub open spec fn digit_char(d: int) -> char {
    if d == 0 {
        '0'
    } else if d == 1 {
        '1'
    } else if d == 2 {
        '2'
    } else if d == 3 {
        '3'
    } else if d == 4 {
        '4'
    } else if d == 5 {
        '5'
    } else if d == 6 {
        '6'
    } else if d == 7 {
        '7'
    } else if d == 8 {
        '8'
    } else {
        '9'
    }
}

/// The decimal digits of `n`, most significant first, without leading zeros.
pub open spec fn decimal(n: nat) -> Seq<char>
    decreases n,
{
    if n < 10 {
        seq![digit_char(n as int)]
    } else {
        decimal(n / 10).push(digit_char((n % 10) as int))
    }
}

/// `base` followed by a dash and the decimal form of `n`.
pub open spec fn suffixed(base: Seq<char>, n: nat) -> Seq<char> {
    base + seq!['-'] + decimal(n)
}

/// `n` is the least positive number whose suffixed form of `base` is not yet issued.
pub open spec fn is_free_suffix(issued: Set<Seq<char>>, base: Seq<char>, n: nat) -> bool {
    &&& n >= 1
    &&& !issued.contains(suffixed(base, n))
    &&& forall|m: nat| 1 <= m < n ==> issued.contains(#[trigger] suffixed(base, m))
}

pub open spec fn free_suffix(issued: Set<Seq<char>>, base: Seq<char>) -> nat {
    choose|n: nat| is_free_suffix(issued, base, n)
}

/// The slug issued for `base`: `base` itself while it is free, else `base-N` with the least
/// positive `N` that is still free.
pub open spec fn unique_slug(issued: Set<Seq<char>>, base: Seq<char>) -> Seq<char> {
    if !issued.contains(base) {
        base
    } else {
        suffixed(base, free_suffix(issued, base))
    }
}

/// The slugs that one slugger issues when it is given `bases` in order.
pub open spec fn slug_sequence(bases: Seq<Seq<char>>) -> Seq<Seq<char>>
    decreases bases.len(),
{
    if bases.len() == 0 {
        seq![]
    } else {
        let prev = slug_sequence(bases.drop_last());
        prev.push(unique_slug(prev.to_set(), bases.last()))
    }
}

/// A decimal form has at least one digit, exactly one below 10, and no dash.
pub proof fn lemma_decimal_shape(n: nat)
    ensures
        decimal(n).len() >= 1,
        (decimal(n).len() == 1) == (n < 10),
        forall|k: int| 0 <= k < decimal(n).len() ==> #[trigger] decimal(n)[k] != '-',
    decreases n,
{
    if n >= 10 {
        lemma_decimal_shape(n / 10);
    }
}

/// Different numbers have different decimal forms.
pub proof fn lemma_decimal_injective(a: nat, b: nat)
    requires
        decimal(a) == decimal(b),
    ensures
        a == b,
    decreases a,
{
    lemma_decimal_shape(a);
    lemma_decimal_shape(b);
    let da = decimal(a);
    let db = decimal(b);
    if a >= 10 {
        assert(da.drop_last() =~= decimal(a / 10));
        assert(db.drop_last() =~= decimal(b / 10));
        assert(da.last() == db.last());
        lemma_digit_injective(a % 10, b % 10);
        lemma_decimal_injective(a / 10, b / 10);
    } else {
        assert(da[0] == db[0]);
        lemma_digit_injective(a, b);
    }
}

proof fn lemma_digit_injective(a: nat, b: nat)
    requires
        a < 10,
        b < 10,
        digit_char(a as int) == digit_char(b as int),
    ensures
        a == b,
{
}

/// A suffixed slug tells its base and its number apart.
pub proof fn lemma_suffixed_injective(a: Seq<char>, m: nat, b: Seq<char>, n: nat)
    requires
        suffixed(a, m) == suffixed(b, n),
    ensures
        a == b,
        m == n,
{
    let s = suffixed(a, m);
    let dm = decimal(m);
    let dn = decimal(n);
    lemma_decimal_shape(m);
    lemma_decimal_shape(n);
    if dm.len() < dn.len() {
        let k = s.len() - dm.len() - 1;
        assert(s[k] == '-');
        assert(suffixed(b, n)[k] == dn[k - b.len() - 1]);
    } else if dn.len() < dm.len() {
        let k = s.len() - dn.len() - 1;
        assert(suffixed(b, n)[k] == '-');
        assert(s[k] == dm[k - a.len() - 1]);
    }
    assert(dm =~= s.subrange(a.len() + 1int, s.len() as int));
    assert(dn =~= s.subrange(b.len() + 1int, s.len() as int));
    lemma_decimal_injective(m, n);
    assert(a =~= s.subrange(0, a.len() as int));
    assert(b =~= s.subrange(0, b.len() as int));
}

/// The least free suffix is the only one with its defining property.
pub proof fn lemma_free_suffix_unique(issued: Set<Seq<char>>, base: Seq<char>, n: nat)
    requires
        is_free_suffix(issued, base, n),
    ensures
        free_suffix(issued, base) == n,
{
    let k = free_suffix(issued, base);
    assert(is_free_suffix(issued, base, k));
    if k < n {
        assert(issued.contains(suffixed(base, k)));
    } else if n < k {
        assert(issued.contains(suffixed(base, n)));
    }
}

/// How often `b` occurs in `s`.
pub open spec fn occurrences(s: Seq<Seq<char>>, b: Seq<char>) -> nat
    decreases s.len(),
{
    if s.len() == 0 {
        0
    } else {
        occurrences(s.drop_last(), b) + if s.last() == b {
            1nat
        } else {
            0nat
        }
    }
}

/// No base equals `b` followed by a dash and a positive number, and `b` equals no base
/// followed by a dash and a positive number.
pub open spec fn base_stands_apart(bases: Seq<Seq<char>>, b: Seq<char>) -> bool {
    forall|j: int, m: nat|
        #![trigger bases[j], suffixed(b, m)]
        #![trigger suffixed(bases[j], m)]
        0 <= j < bases.len() && m >= 1 ==> bases[j] != suffixed(b, m) && b != suffixed(bases[j], m)
}

/// The base at `i` with the suffix `-(K-1)` where it is the K-th occurrence of that base,
/// and unsuffixed where it is the first.
pub open spec fn counted_slug(bases: Seq<Seq<char>>, i: int) -> Seq<char> {
    let c = occurrences(bases.subrange(0, i), bases[i]);
    if c == 0 {
        bases[i]
    } else {
        suffixed(bases[i], c)
    }
}

proof fn lemma_occurrences_prefix(s: Seq<Seq<char>>, b: Seq<char>, k: int)
    requires
        0 <= k <= s.len(),
    ensures
        occurrences(s.subrange(0, k), b) <= occurrences(s, b),
    decreases s.len(),
{
    if k < s.len() {
        assert(s.drop_last().subrange(0, k) =~= s.subrange(0, k));
        lemma_occurrences_prefix(s.drop_last(), b, k);
    } else {
        assert(s.subrange(0, k) =~= s);
    }
}

proof fn lemma_occurrence_counts_before(s: Seq<Seq<char>>, b: Seq<char>, j: int)
    requires
        0 <= j < s.len(),
        s[j] == b,
    ensures
        occurrences(s.subrange(0, j), b) < occurrences(s, b),
{
    let t = s.subrange(0, j + 1);
    assert(t.drop_last() =~= s.subrange(0, j));
    lemma_occurrences_prefix(s, b, j + 1);
}

proof fn lemma_occurrence_with_count(s: Seq<Seq<char>>, b: Seq<char>, m: nat)
    requires
        m < occurrences(s, b),
    ensures
        exists|j: int|
            0 <= j < s.len() && s[j] == b && occurrences(s.subrange(0, j), b) == m,
    decreases s.len(),
{
    let p = s.drop_last();
    if m < occurrences(p, b) {
        lemma_occurrence_with_count(p, b, m);
        let j = choose|j: int| 0 <= j < p.len() && p[j] == b && occurrences(p.subrange(0, j), b) == m;
        assert(p.subrange(0, j) =~= s.subrange(0, j));
        assert(s[j] == b);
    } else {
        assert(s.subrange(0, s.len() - 1) =~= p);
        assert(s[s.len() - 1] == b);
    }
}

proof fn lemma_least_free(issued: Set<Seq<char>>, x: Seq<char>, n: nat)
    requires
        n >= 1,
        !issued.contains(suffixed(x, n)),
    ensures
        exists|k: nat| is_free_suffix(issued, x, k),
    decreases n,
{
    if exists|m: nat| 1 <= m < n && !issued.contains(#[trigger] suffixed(x, m)) {
        let m = choose|m: nat| 1 <= m < n && !issued.contains(#[trigger] suffixed(x, m));
        lemma_least_free(issued, x, m);
    } else {
        assert(is_free_suffix(issued, x, n));
    }
}

/// A finite set of issued slugs always leaves a least free suffix.
pub proof fn lemma_free_suffix_exists(issued: Set<Seq<char>>, x: Seq<char>)
    requires
        issued.finite(),
    ensures
        free_suffix(issued, x) >= 1,
        is_free_suffix(issued, x, free_suffix(issued, x)),
{
    let n = issued.len();
    let t = Seq::new(n + 1, |k: int| suffixed(x, (k + 1) as nat));
    if forall|k: int| 0 <= k < t.len() ==> issued.contains(#[trigger] t[k]) {
        assert forall|i: int, j: int| 0 <= i < t.len() && 0 <= j < t.len() && i != j implies t[i]
            != t[j] by {
            if t[i] == t[j] {
                lemma_suffixed_injective(x, (i + 1) as nat, x, (j + 1) as nat);
            }
        }
        assert(t.no_duplicates());
        t.unique_seq_to_set();
        assert forall|e: Seq<char>| t.to_set().contains(e) implies issued.contains(e) by {
            let i = choose|i: int| 0 <= i < t.len() && t[i] == e;
        }
        vstd::set_lib::lemma_len_subset(t.to_set(), issued);
    } else {
        let k = choose|k: int| 0 <= k < t.len() && !issued.contains(#[trigger] t[k]);
        lemma_least_free(issued, x, (k + 1) as nat);
    }
}

/// The slug issued for `x` is `x` itself or `x` with a positive suffix.
pub proof fn lemma_unique_slug_shape(issued: Set<Seq<char>>, x: Seq<char>)
    requires
        issued.finite(),
    ensures
        unique_slug(issued, x) == x || exists|n: nat|
            n >= 1 && unique_slug(issued, x) == #[trigger] suffixed(x, n),
{
    if issued.contains(x) {
        lemma_free_suffix_exists(issued, x);
        let n = free_suffix(issued, x);
        assert(unique_slug(issued, x) == suffixed(x, n));
    }
}

pub proof fn lemma_slug_sequence_len(a: Seq<Seq<char>>)
    ensures
        slug_sequence(a).len() == a.len(),
    decreases a.len(),
{
    if a.len() > 0 {
        lemma_slug_sequence_len(a.drop_last());
    }
}

/// Issuing more slugs leaves the ones issued before as they were.
pub proof fn lemma_slug_sequence_prefix(a: Seq<Seq<char>>, b: Seq<Seq<char>>)
    ensures
        slug_sequence(a + b).len() == a.len() + b.len(),
        slug_sequence(a + b).subrange(0, a.len() as int) == slug_sequence(a),
    decreases b.len(),
{
    if b.len() == 0 {
        assert(a + b =~= a);
        lemma_slug_sequence_len(a);
        assert(slug_sequence(a).subrange(0, a.len() as int) =~= slug_sequence(a));
    } else {
        lemma_slug_sequence_prefix(a, b.drop_last());
        assert((a + b).drop_last() =~= a + b.drop_last());
        assert(slug_sequence(a + b).subrange(0, a.len() as int) =~= slug_sequence(
            a + b.drop_last(),
        ).subrange(0, a.len() as int));
    }
}

/// The slug issued at `j` is the base at `j` or that base with a positive suffix.
proof fn lemma_issued_shape(bases: Seq<Seq<char>>, j: int)
    requires
        0 <= j < bases.len(),
    ensures
        slug_sequence(bases)[j] == bases[j] || exists|n: nat|
            n >= 1 && slug_sequence(bases)[j] == #[trigger] suffixed(bases[j], n),
{
    let head = bases.subrange(0, j + 1);
    let tail = bases.subrange(j + 1, bases.len() as int);
    assert(bases =~= head + tail);
    lemma_slug_sequence_prefix(head, tail);
    lemma_slug_sequence_len(head);
    assert(slug_sequence(bases)[j] == slug_sequence(head)[j]);
    assert(head.drop_last() =~= bases.subrange(0, j));
    lemma_unique_slug_shape(slug_sequence(bases.subrange(0, j)).to_set(), bases[j]);
}

proof fn lemma_slug_sequence_counts(bases: Seq<Seq<char>>, b: Seq<char>)
    requires
        base_stands_apart(bases, b),
    ensures
        slug_sequence(bases).len() == bases.len(),
        forall|i: int|
            0 <= i < bases.len() && bases[i] == b ==> #[trigger] slug_sequence(bases)[i]
                == counted_slug(bases, i),
    decreases bases.len(),
{
    lemma_slug_sequence_len(bases);
    if bases.len() > 0 {
        let p = bases.drop_last();
        let last = bases.len() - 1;
        assert forall|j: int, m: nat|
            #![trigger p[j], suffixed(b, m)]
            0 <= j < p.len() && m >= 1 implies p[j] != suffixed(b, m) && b != suffixed(p[j], m) by {
            assert(p[j] == bases[j]);
        }
        lemma_slug_sequence_counts(p, b);
        let prev = slug_sequence(p);
        let set = prev.to_set();
        assert(bases.subrange(0, last) =~= p);
        assert forall|i: int| 0 <= i < p.len() implies counted_slug(p, i) == counted_slug(bases, i) by {
            assert(p.subrange(0, i) =~= bases.subrange(0, i));
        }
        if bases.last() == b {
            let c = occurrences(p, b);
            // What the earlier slugs are, seen from `b`.
            assert forall|j: int, m: nat|
                0 <= j < p.len() && (prev[j] == b || (m >= 1 && prev[j] == suffixed(b, m))) implies p[j]
                == b by {
                lemma_issued_shape(p, j);
                if p[j] != b {
                    assert(bases[j] == p[j]);
                    if prev[j] == p[j] {
                        if prev[j] == b {
                        } else {
                            assert(bases[j] != suffixed(b, m));
                        }
                    } else {
                        let n = choose|n: nat| n >= 1 && prev[j] == #[trigger] suffixed(p[j], n);
                        if prev[j] == b {
                            assert(b != suffixed(bases[j], n));
                        } else {
                            lemma_suffixed_injective(p[j], n, b, m);
                        }
                    }
                }
            }
            if c == 0 {
                if set.contains(b) {
                    let j = choose|j: int| 0 <= j < prev.len() && prev[j] == b;
                    assert(p[j] == b);
                    lemma_occurrence_counts_before(p, b, j);
                }
            } else {
                lemma_occurrence_with_count(p, b, 0);
                let j0 = choose|j: int| 0 <= j < p.len() && p[j] == b && occurrences(p.subrange(0, j), b) == 0;
                assert(prev[j0] == counted_slug(p, j0));
                assert(set.contains(b));
                assert forall|m: nat| 1 <= m < c implies set.contains(#[trigger] suffixed(b, m)) by {
                    lemma_occurrence_with_count(p, b, m);
                    let j = choose|j: int| 0 <= j < p.len() && p[j] == b && occurrences(p.subrange(0, j), b) == m;
                    assert(prev[j] == counted_slug(p, j));
                    assert(prev[j] == suffixed(b, m));
                }
                if set.contains(suffixed(b, c)) {
                    let j = choose|j: int| 0 <= j < prev.len() && prev[j] == suffixed(b, c);
                    assert(p[j] == b);
                    assert(prev[j] == counted_slug(p, j));
                    let oc = occurrences(p.subrange(0, j), b);
                    if oc == 0 {
                        assert(prev[j].len() < suffixed(b, c).len());
                    } else {
                        lemma_suffixed_injective(b, oc, b, c);
                    }
                    lemma_occurrence_counts_before(p, b, j);
                }
                assert(is_free_suffix(set, b, c));
                lemma_free_suffix_unique(set, b, c);
            }
            assert(slug_sequence(bases)[last] == counted_slug(bases, last));
        }
    }
}

/// Slug uniqueness: for a base `b` that equals no other base followed by a dash and a
/// positive number, and that no base equals followed by one, the first occurrence of `b` is
/// issued unsuffixed and its K-th occurrence (K >= 2) is issued as `b-(K-1)`.
pub proof fn lemma_kth_occurrence_suffix(bases: Seq<Seq<char>>, i: int)
    requires
        0 <= i < bases.len(),
        base_stands_apart(bases, bases[i]),
    ensures
        slug_sequence(bases)[i] == counted_slug(bases, i),
{
    lemma_slug_sequence_counts(bases, bases[i]);
}

/// The issued slugs, kept in the order they were issued.
pub struct AnchorSlugger {
    issued: Vec<String>,
}

impl View for AnchorSlugger {
    type V = Seq<Seq<char>>;

    closed spec fn view(&self) -> Seq<Seq<char>> {
        self.issued@.map_values(|s: String| s@)
    }
}

/// The digits of `n` appended to `v`.
pub(crate) fn push_decimal(v: &mut Vec<char>, n: usize)
    ensures
        final(v)@ == old(v)@ + decimal(n as nat),
    decreases n,
{
    if n >= 10 {
        push_decimal(v, n / 10);
    }
    let d = n % 10;
    let c = if d == 0 {
        '0'
    } else if d == 1 {
        '1'
    } else if d == 2 {
        '2'
    } else if d == 3 {
        '3'
    } else if d == 4 {
        '4'
    } else if d == 5 {
        '5'
    } else if d == 6 {
        '6'
    } else if d == 7 {
        '7'
    } else if d == 8 {
        '8'
    } else {
        '9'
    };
    v.push(c);
    assert(v@ =~= old(v)@ + decimal(n as nat));
}

fn make_suffixed(base: &Vec<char>, n: usize) -> (r: String)
    ensures
        r@ == suffixed(base@, n as nat),
{
    let mut v = base.clone();
    v.push('-');
    push_decimal(&mut v, n);
    assert(v@ =~= suffixed(base@, n as nat));
    string_of(&v)
}

impl AnchorSlugger {
    pub fn new() -> (r: AnchorSlugger)
        ensures
            r@ == Seq::<Seq<char>>::empty(),
    {
        let r = AnchorSlugger { issued: Vec::new() };
        assert(r@ =~= Seq::<Seq<char>>::empty());
        r
    }

    fn contains(&self, s: &String) -> (r: bool)
        ensures
            r == self@.contains(s@),
    {
        let mut i: usize = 0;
        while i < self.issued.len()
            invariant
                i <= self.issued@.len(),
                forall|k: int| 0 <= k < i ==> self@[k] != s@,
            decreases self.issued@.len() - i,
        {
            if self.issued[i] == *s {
                assert(self@[i as int] == s@);
                return true;
            }
            i += 1;
        }
        false
    }

    /// Issues the slug of raw heading text, made unique against every slug issued before.
    pub fn slug(&mut self, text: &str) -> (r: String)
        ensures
            r@ == unique_slug(old(self)@.to_set(), slugified(text@)),
            final(self)@ == old(self)@.push(r@),
    {
        self.unique_slug(slugify(text))
    }

    /// Issues `candidate` while it is free, else `candidate-N` with the least free `N >= 1`.
    pub fn unique_slug(&mut self, candidate: String) -> (r: String)
        ensures
            r@ == unique_slug(old(self)@.to_set(), candidate@),
            final(self)@ == old(self)@.push(r@),
    {
        let ghost issued = self@.to_set();
        let ghost base = candidate@;
        if !self.contains(&candidate) {
            let r = candidate.clone();
            self.issued.push(candidate);
            assert(self@ =~= old(self)@.push(r@));
            return r;
        }
        let base_chars = chars_of(candidate.as_str());
        let mut x: usize = 1;
        let mut found = make_suffixed(&base_chars, x);
        while self.contains(&found)
            invariant
                self@ == old(self)@,
                issued == self@.to_set(),
                issued.contains(base),
                base_chars@ == base,
                1 <= x <= self@.len(),
                found@ == suffixed(base, x as nat),
                forall|m: nat| 1 <= m < x ==> issued.contains(#[trigger] suffixed(base, m)),
            decreases self@.len() - x,
        {
            proof {
                assert(self@.contains(suffixed(base, x as nat)));
                assert(issued.contains(suffixed(base, x as nat)));
                assert forall|m: nat| 1 <= m <= x implies issued.contains(
                    #[trigger] suffixed(base, m),
                ) by {
                    if m < x {
                    }
                }
                self.lemma_suffixes_fit(base, x as nat);
            }
            assert(self@.len() == self.issued@.len());
            let n = self.issued.len();
            assert(x < n);
            x += 1;
            found = make_suffixed(&base_chars, x);
        }
        proof {
            assert(is_free_suffix(issued, base, x as nat));
            lemma_free_suffix_unique(issued, base, x as nat);
        }
        let r = found.clone();
        self.issued.push(found);
        assert(self@ =~= old(self)@.push(r@));
        r
    }

    /// Where `base` and its suffixed forms `1..=x` are all issued, there are more than `x`
    /// issued slugs.
    proof fn lemma_suffixes_fit(&self, base: Seq<char>, x: nat)
        requires
            self@.to_set().contains(base),
            x >= 1,
            forall|m: nat| 1 <= m <= x ==> self@.to_set().contains(#[trigger] suffixed(base, m)),
        ensures
            x + 1 <= self@.len(),
    {
        let t = seq![base] + Seq::new(x, |k: int| suffixed(base, (k + 1) as nat));
        assert forall|i: int, j: int| 0 <= i < t.len() && 0 <= j < t.len() && i != j implies t[i]
            != t[j] by {
            if i > 0 && j > 0 {
                if t[i] == t[j] {
                    lemma_suffixed_injective(base, (i - 1 + 1) as nat, base, (j - 1 + 1) as nat);
                }
            } else if i == 0 {
                assert(t[j].len() > base.len());
            } else {
                assert(t[i].len() > base.len());
            }
        }
        assert(t.no_duplicates());
        t.unique_seq_to_set();
        assert forall|e: Seq<char>| t.to_set().contains(e) implies self@.to_set().contains(e) by {
            let i = choose|i: int| 0 <= i < t.len() && t[i] == e;
            if i > 0 {
                assert(e == suffixed(base, i as nat));
            }
        }
        vstd::set_lib::lemma_len_subset(t.to_set(), self@.to_set());
        self@.lemma_cardinality_of_set();
    }
}

} // verus!
