use vstd::prelude::*;

verus! {

use crate::data_structures::queue::Queue;

/// `s` is ordered from smallest to largest.
pub open spec fn sorted(s: Seq<u64>) -> bool {
    forall|i: int, j: int| 0 <= i <= j < s.len() ==> s[i] <= s[j]
}

/// Ten to the power `p`.
pub open spec fn pow10(p: nat) -> int
    decreases p,
{
    if p == 0 {
        1
    } else {
        10 * pow10((p - 1) as nat)
    }
}

/// The decimal digit of `x` at place `p`.
pub open spec fn dval(x: u64, p: nat) -> int {
    (x as int / pow10(p)) % 10
}

/// The value of the digits of `x` below place `p`.
pub open spec fn low(x: u64, p: nat) -> int {
    (x as int) % pow10(p)
}

/// `s` is ordered by the digits below place `p`.
pub open spec fn sorted_low(s: Seq<u64>, p: nat) -> bool {
    forall|i: int, j: int| 0 <= i <= j < s.len() ==> low(s[i], p) <= low(s[j], p)
}

/// How many decimal digits `x` occupies.
pub open spec fn num_digits(x: u64) -> nat
    decreases x,
{
    if x < 10 {
        1
    } else {
        1 + num_digits(x / 10)
    }
}

proof fn lemma_pow10_pos(p: nat)
    ensures
        pow10(p) >= 1,
    decreases p,
{
    if p > 0 {
        lemma_pow10_pos((p - 1) as nat);
    }
}

proof fn lemma_pow10_mono(p: nat, q: nat)
    requires
        p <= q,
    ensures
        pow10(p) <= pow10(q),
    decreases q,
{
    if p < q {
        lemma_pow10_mono(p, (q - 1) as nat);
        lemma_pow10_pos((q - 1) as nat);
    }
}

/// Splitting the digits of `x` below place `p + 1` at place `p`.
proof fn lemma_low_split(x: u64, p: nat)
    ensures
        low(x, (p + 1) as nat) == dval(x, p) * pow10(p) + low(x, p),
        0 <= low(x, p) < pow10(p),
        0 <= dval(x, p) < 10,
        0 <= low(x, (p + 1) as nat) < pow10((p + 1) as nat),
{
    reveal_with_fuel(pow10, 4);
    lemma_pow10_pos(p);
    lemma_pow10_pos((p + 1) as nat);
    vstd::arithmetic::div_mod::lemma_mod_breakdown(x as int, pow10(p), 10);
    assert(pow10((p + 1) as nat) == pow10(p) * 10) by {
        assert(pow10((p + 1) as nat) == 10 * pow10(p));
    }
    assert(low(x, (p + 1) as nat) == x as int % (pow10(p) * 10));
    assert(x as int % (pow10(p) * 10) == pow10(p) * ((x as int / pow10(p)) % 10) + x as int % pow10(
        p,
    ));
    assert(dval(x, p) * pow10(p) == pow10(p) * ((x as int / pow10(p)) % 10)) by (nonlinear_arith);
    assert(low(x, (p + 1) as nat) == dval(x, p) * pow10(p) + low(x, p));
    vstd::arithmetic::div_mod::lemma_mod_bound(x as int, pow10(p));
    vstd::arithmetic::div_mod::lemma_mod_bound(x as int, pow10((p + 1) as nat));
    vstd::arithmetic::div_mod::lemma_div_pos_is_pos(x as int, pow10(p));
    vstd::arithmetic::div_mod::lemma_mod_bound(x as int / pow10(p), 10);
}

/// Digits above the count of digits of `x` are absent: `x` lies below
/// `pow10` of its digit count.
proof fn lemma_num_digits_bound(x: u64)
    ensures
        x < pow10(num_digits(x)),
        num_digits(x) >= 1,
    decreases x,
{
    reveal_with_fuel(pow10, 4);
    if x < 10 {
    } else {
        lemma_num_digits_bound(x / 10);
        let d = num_digits(x / 10);
        assert(x as int / 10 < pow10(d));
        assert(x < 10 * pow10(d)) by (nonlinear_arith)
            requires
                (x as int / 10) < pow10(d),
                x >= 10,
                pow10(d) >= 1,
        ;
        assert(num_digits(x) == 1 + d);
        assert(pow10(num_digits(x)) == 10 * pow10(d));
    }
}

/// A value below `pow10(k)` has at most `k` digits.
proof fn lemma_num_digits_le(x: u64, k: nat)
    requires
        (x as int) < pow10(k),
        k >= 1,
    ensures
        num_digits(x) <= k,
    decreases x,
{
    reveal_with_fuel(pow10, 4);
    if x < 10 {
    } else {
        assert(pow10(k) > 10) by {
            lemma_pow10_pos((k - 1) as nat);
            if k == 1 {
                assert(pow10(1nat) == 10);
                assert(false);
            }
            lemma_pow10_mono(2nat, k);
            assert(pow10(1nat) == 10);
            assert(pow10(2nat) == 100);
        }
        assert(((x / 10) as int) < pow10((k - 1) as nat)) by (nonlinear_arith)
            requires
                (x as int) < pow10(k),
                pow10(k) == 10 * pow10((k - 1) as nat),
                x >= 10,
                (x / 10) as int == (x as int) / 10,
        ;
        lemma_num_digits_le(x / 10, (k - 1) as nat);
    }
}

/// Concrete powers of ten needed for the 64-bit bound.
proof fn lemma_pow10_20()
    ensures
        pow10(19nat) == 0x8AC7230489E80000,
        pow10(20nat) > u64::MAX,
{
    reveal_with_fuel(pow10, 22);
    assert(pow10(19nat) == 10000000000000000000);
    assert(pow10(20nat) == 100000000000000000000);
}

/// One numbered bucket of the distribution step.
pub struct Bucket {
    value: u8,
    queue: Queue<u64>,
}

impl Bucket {
    /// The pending contents of this bucket.
    pub closed spec fn q(self) -> Seq<u64> {
        self.queue@
    }

    /// Creates a bucket numbered zero with an empty queue.
    pub fn new() -> (b: Self)
        ensures
            b.q() == Seq::<u64>::empty(),
    {
        Bucket { value: 0, queue: Queue::new() }
    }
}

/// The ten digit buckets used by one distribution pass.
pub struct Buckets {
    buckets: Vec<Bucket>,
}

impl Buckets {
    /// There is one bucket per decimal digit.
    pub closed spec fn wf(self) -> bool {
        self.buckets@.len() == 10
    }

    /// The pending contents of bucket `b`.
    pub closed spec fn q(self, b: int) -> Seq<u64> {
        self.buckets@[b].q()
    }

    /// Creates ten empty buckets.
    pub fn new() -> (r: Self)
        ensures
            r.wf(),
            forall|b: int| 0 <= b < 10 ==> #[trigger] r.q(b) == Seq::<u64>::empty(),
    {
        let mut buckets: Vec<Bucket> = Vec::with_capacity(10);
        let mut i: usize = 0;
        while i < 10
            invariant
                i <= 10,
                buckets@.len() == i,
                forall|b: int| 0 <= b < i ==> (#[trigger] buckets@[b]).q() == Seq::<u64>::empty(),
            decreases 10 - i,
        {
            buckets.push(Bucket { value: i as u8, queue: Queue::new() });
            i = i + 1;
        }
        Buckets { buckets }
    }

    /// Appends `item` to bucket `bucket_index`.
    pub fn enqueue(&mut self, bucket_index: usize, item: u64)
        requires
            old(self).wf(),
            bucket_index < 10,
        ensures
            final(self).wf(),
            final(self).q(bucket_index as int) == old(self).q(bucket_index as int).push(item),
            forall|b: int|
                0 <= b < 10 && b != bucket_index ==> #[trigger] final(self).q(b) == old(self).q(b),
    {
        let bkt = &mut self.buckets[bucket_index];
        bkt.queue.enqueue(item);
    }

    /// Removes and returns the front of bucket `bucket_index`, or `None`
    /// when that bucket is empty.
    pub fn dequeue(&mut self, bucket_index: usize) -> (r: Option<u64>)
        requires
            old(self).wf(),
            bucket_index < 10,
        ensures
            final(self).wf(),
            old(self).q(bucket_index as int).len() == 0 ==> r is None && final(self).q(
                bucket_index as int,
            ) == old(self).q(bucket_index as int),
            old(self).q(bucket_index as int).len() > 0 ==> r == Some(
                old(self).q(bucket_index as int)[0],
            ) && final(self).q(bucket_index as int) == old(self).q(
                bucket_index as int,
            ).drop_first(),
            forall|b: int|
                0 <= b < 10 && b != bucket_index ==> #[trigger] final(self).q(b) == old(self).q(b),
    {
        let bkt = &mut self.buckets[bucket_index];
        bkt.queue.dequeue()
    }

    /// Bucket `bucket_index` holds nothing.
    pub fn is_empty(&self, bucket_index: usize) -> (r: bool)
        requires
            self.wf(),
            bucket_index < 10,
        ensures
            r <==> self.q(bucket_index as int).len() == 0,
    {
        self.buckets[bucket_index].queue.is_empty()
    }

    /// Borrows the front of bucket `bucket_index`, or `None` when empty.
    pub fn peek(&self, bucket_index: usize) -> (r: Option<&u64>)
        requires
            self.wf(),
            bucket_index < 10,
        ensures
            self.q(bucket_index as int).len() == 0 ==> r is None,
            self.q(bucket_index as int).len() > 0 ==> (r matches Some(x) && *x == self.q(
                bucket_index as int,
            )[0]),
    {
        self.buckets[bucket_index].queue.peek()
    }
}

/// Ten to the power `place`, computed by repeated multiplication.
fn pow10_exec(place: u64) -> (r: u64)
    requires
        place <= 19,
    ensures
        r as int == pow10(place as nat),
{
    proof {
        lemma_pow10_20();
    }
    let mut r: u64 = 1;
    let mut k: u64 = 0;
    while k < place
        invariant
            k <= place <= 19,
            r as int == pow10(k as nat),
        decreases place - k,
    {
        proof {
            lemma_pow10_20();
            lemma_pow10_mono((k + 1) as nat, 19nat);
            lemma_pow10_pos(k as nat);
        }
        r = r * 10;
        k = k + 1;
    }
    r
}

/// Retrieves the decimal digit of `num` at place `place`.
pub fn get_value_at_unit(num: u64, place: u64) -> (r: u64)
    requires
        place <= 19,
    ensures
        r as int == dval(num, place as nat),
        r < 10,
{
    proof {
        lemma_pow10_pos(place as nat);
        vstd::arithmetic::div_mod::lemma_div_pos_is_pos(num as int, pow10(place as nat));
        vstd::arithmetic::div_mod::lemma_mod_bound(num as int / pow10(place as nat), 10);
    }
    (num / pow10_exec(place)) % 10
}

/// How many decimal digits `x` occupies, at most twenty.
fn digits(x: u64) -> (r: u64)
    ensures
        r as nat == num_digits(x),
        1 <= r <= 20,
{
    proof {
        lemma_pow10_20();
        lemma_num_digits_le(x, 20nat);
        lemma_num_digits_bound(x);
    }
    let mut n = x;
    let mut d: u64 = 1;
    while n >= 10
        invariant
            num_digits(x) == d - 1 + num_digits(n),
            d >= 1,
            num_digits(x) <= 20,
            num_digits(n) >= 1,
        decreases n,
    {
        n = n / 10;
        d = d + 1;
    }
    d
}

/// The highest decimal place occupied by any element: every element lies
/// below `pow10(r + 1)`, and unless the vector is empty some element has
/// exactly `r + 1` digits.
pub fn get_largest_place(arr: &Vec<u64>) -> (r: u64)
    ensures
        r <= 19,
        forall|i: int| 0 <= i < arr@.len() ==> (#[trigger] arr@[i]) < pow10((r + 1) as nat),
        arr@.len() == 0 ==> r == 0,
        arr@.len() > 0 ==> exists|i: int|
            0 <= i < arr@.len() && num_digits(#[trigger] arr@[i]) == r + 1,
    {
    let mut largest: u64 = 0;
    let mut i: usize = 0;
    while i < arr.len()
        invariant
            i <= arr@.len(),
            largest <= 19,
            i == 0 ==> largest == 0,
            i > 0 ==> exists|k: int|
                0 <= k < i && num_digits(#[trigger] arr@[k]) == largest + 1,
            forall|k: int| 0 <= k < i ==> num_digits(#[trigger] arr@[k]) <= largest + 1,
        decreases arr@.len() - i,
    {
        let d = digits(arr[i]);
        if d - 1 > largest {
            largest = d - 1;
        }
        proof {
            if num_digits(arr@[i as int]) == largest + 1 {
                assert(exists|k: int|
                    0 <= k < i + 1 && num_digits(#[trigger] arr@[k]) == largest + 1);
            }
        }
        i = i + 1;
    }
    proof {
        assert forall|k: int|
            0 <= k < arr@.len() implies (#[trigger] arr@[k]) < pow10((largest + 1) as nat) by {
            lemma_num_digits_bound(arr@[k]);
            lemma_pow10_mono(num_digits(arr@[k]), (largest + 1) as nat);
        }
    }
    largest
}

/// Reports whether the vector is ordered from smallest to largest.
pub fn validate_sort(arr: &Vec<u64>) -> (r: Result<(), &'static str>)
    ensures
        r is Ok <==> sorted(arr@),
{
    if arr.len() == 0 {
        return Ok(());
    }
    let mut i: usize = 0;
    while i < arr.len() - 1
        invariant
            arr@.len() > 0,
            i <= arr@.len() - 1,
            forall|a: int, b: int| 0 <= a <= b <= i ==> arr@[a] <= arr@[b],
        decreases arr@.len() - i,
    {
        if arr[i] > arr[i + 1] {
            return Err("The vector is not sorted");
        }
        proof {
            assert forall|a: int, b: int| 0 <= a <= b <= i + 1 implies arr@[a] <= arr@[b] by {
                if b == i + 1 && a <= i {
                    assert(arr@[a] <= arr@[i as int]);
                }
            }
        }
        i = i + 1;
    }
    Ok(())
}


/// The digit-at-place-`p` test for bucket `b`.
pub open spec fn dpred(p: nat, b: int) -> spec_fn(u64) -> bool {
    |x: u64| dval(x, p) == b
}

/// The concatenation of the digit buckets below `b`, in bucket order.
pub open spec fn parts_concat(s: Seq<u64>, p: nat, b: int) -> Seq<u64>
    decreases b,
{
    if b <= 0 {
        Seq::empty()
    } else {
        parts_concat(s, p, b - 1) + s.filter(dpred(p, b - 1))
    }
}

/// Digits below place zero contribute nothing.
proof fn lemma_low_zero(x: u64)
    ensures
        low(x, 0nat) == 0,
{
    reveal_with_fuel(pow10, 2);
    vstd::arithmetic::div_mod::lemma_mod_bound(x as int, 1);
}

proof fn lemma_parts_empty(p: nat, b: int)
    ensures
        parts_concat(Seq::empty(), p, b) =~= Seq::<u64>::empty(),
    decreases b,
{
    reveal(Seq::filter);
    if b > 0 {
        lemma_parts_empty(p, b - 1);
    }
}

/// Appending `x` to the source adds one occurrence of `x` to the bucket
/// concatenation exactly when its digit lies below `b`.
proof fn lemma_parts_push(s: Seq<u64>, x: u64, p: nat, b: int)
    ensures
        parts_concat(s.push(x), p, b).to_multiset() == if 0 <= dval(x, p) < b {
            parts_concat(s, p, b).to_multiset().insert(x)
        } else {
            parts_concat(s, p, b).to_multiset()
        },
    decreases b,
{
    broadcast use vstd::seq_lib::group_to_multiset_ensures;
    broadcast use vstd::multiset::group_multiset_axioms;
    broadcast use vstd::multiset::group_multiset_properties;
    broadcast use Seq::lemma_filter_push;

    if b > 0 {
        lemma_parts_push(s, x, p, b - 1);
        vstd::seq_lib::lemma_multiset_commutative(
            parts_concat(s.push(x), p, b - 1),
            s.push(x).filter(dpred(p, b - 1)),
        );
        vstd::seq_lib::lemma_multiset_commutative(
            parts_concat(s, p, b - 1),
            s.filter(dpred(p, b - 1)),
        );
        if dval(x, p) == b - 1 {
            assert(s.push(x).filter(dpred(p, b - 1)) == s.filter(dpred(p, b - 1)).push(x));
            assert(parts_concat(s.push(x), p, b).to_multiset() =~= parts_concat(
                s,
                p,
                b,
            ).to_multiset().insert(x));
        } else {
            assert(s.push(x).filter(dpred(p, b - 1)) == s.filter(dpred(p, b - 1)));
            if 0 <= dval(x, p) < b {
                assert(parts_concat(s.push(x), p, b).to_multiset() =~= parts_concat(
                    s,
                    p,
                    b,
                ).to_multiset().insert(x));
            } else {
                assert(parts_concat(s.push(x), p, b).to_multiset() =~= parts_concat(
                    s,
                    p,
                    b,
                ).to_multiset());
            }
        }
    }
}

/// Distributing into ten digit buckets and concatenating them back loses
/// and duplicates nothing.
proof fn lemma_parts_multiset(s: Seq<u64>, p: nat)
    ensures
        parts_concat(s, p, 10).to_multiset() == s.to_multiset(),
    decreases s.len(),
{
    broadcast use vstd::seq_lib::group_to_multiset_ensures;

    if s.len() == 0 {
        lemma_parts_empty(p, 10);
        assert(s =~= Seq::<u64>::empty());
    } else {
        let t = s.drop_last();
        let x = s.last();
        lemma_parts_multiset(t, p);
        lemma_parts_push(t, x, p, 10);
        lemma_low_split(x, p);
        assert(s =~= t.push(x));
    }
}

/// Filtering preserves the digit ordering of the source.
proof fn lemma_filter_sorted_low(s: Seq<u64>, p: nat, pred: spec_fn(u64) -> bool)
    requires
        sorted_low(s, p),
    ensures
        sorted_low(s.filter(pred), p),
    decreases s.len(),
{
    reveal(Seq::filter);
    if s.len() > 0 {
        let t = s.drop_last();
        assert(sorted_low(t, p));
        lemma_filter_sorted_low(t, p, pred);
        if pred(s.last()) {
            let f = t.filter(pred).push(s.last());
            assert(s.filter(pred) == f);
            assert forall|i: int, j: int|
                0 <= i <= j < f.len() implies low(f[i], p) <= low(f[j], p) by {
                if j < f.len() - 1 {
                    assert(f[i] == t.filter(pred)[i]);
                    assert(f[j] == t.filter(pred)[j]);
                } else if i < f.len() - 1 {
                    assert(f[i] == t.filter(pred)[i]);
                    assert(t.filter(pred).contains(t.filter(pred)[i]));
                    t.lemma_filter_contains_rev(pred, t.filter(pred)[i]);
                    let k = choose|k: int| 0 <= k < t.len() && t[k] == f[i];
                    assert(low(s[k], p) <= low(s[s.len() - 1], p));
                }
            }
        }
    }
}

/// The bucket concatenation is ordered by the digits up to and including
/// place `p`, and every element's digit at `p` lies below `b`.
proof fn lemma_parts_sorted(s: Seq<u64>, p: nat, b: int)
    requires
        sorted_low(s, p),
        0 <= b <= 10,
    ensures
        sorted_low(parts_concat(s, p, b), (p + 1) as nat),
        forall|i: int|
            0 <= i < parts_concat(s, p, b).len() ==> dval(
                #[trigger] parts_concat(s, p, b)[i],
                p,
            ) < b,
    decreases b,
{
    broadcast use Seq::lemma_filter_pred;

    if b > 0 {
        lemma_parts_sorted(s, p, b - 1);
        let a = parts_concat(s, p, b - 1);
        let f = s.filter(dpred(p, b - 1));
        let c = parts_concat(s, p, b);
        assert(c == a + f);
        lemma_filter_sorted_low(s, p, dpred(p, b - 1));
        assert forall|i: int, j: int|
            0 <= i <= j < c.len() implies low(c[i], (p + 1) as nat) <= low(
            c[j],
            (p + 1) as nat,
        ) by {
            lemma_low_split(c[i], p);
            lemma_low_split(c[j], p);
            if j < a.len() {
                assert(c[i] == a[i]);
                assert(c[j] == a[j]);
            } else if i >= a.len() {
                assert(c[i] == f[i - a.len()]);
                assert(c[j] == f[j - a.len()]);
                assert(dpred(p, b - 1)(f[i - a.len()]));
                assert(dpred(p, b - 1)(f[j - a.len()]));
                assert(low(f[i - a.len()], p) <= low(f[j - a.len()], p));
            } else {
                assert(c[i] == a[i]);
                assert(c[j] == f[j - a.len()]);
                assert(dval(a[i], p) < b - 1);
                assert(dpred(p, b - 1)(f[j - a.len()]));
                assert(dval(c[j], p) == b - 1);
                assert((dval(c[i], p) + 1) * pow10(p) <= dval(c[j], p) * pow10(p)) by (
                nonlinear_arith)
                    requires
                        dval(c[i], p) + 1 <= dval(c[j], p),
                        pow10(p) >= 1,
                ;
                assert(low(c[i], (p + 1) as nat) < (dval(c[i], p) + 1) * pow10(p)) by (
                nonlinear_arith)
                    requires
                        low(c[i], (p + 1) as nat) == dval(c[i], p) * pow10(p) + low(c[i], p),
                        low(c[i], p) < pow10(p),
                ;
                assert(dval(c[j], p) * pow10(p) <= low(c[j], (p + 1) as nat));
            }
        }
        assert forall|i: int| 0 <= i < c.len() implies dval(#[trigger] c[i], p) < b by {
            if i < a.len() {
                assert(c[i] == a[i]);
            } else {
                assert(c[i] == f[i - a.len()]);
                assert(dpred(p, b - 1)(f[i - a.len()]));
            }
        }
    }
}

/// Sorts the vector of unsigned integers by distributing on each decimal
/// digit in turn, least significant first, and collecting the buckets in
/// order after each pass.
#[verifier::rlimit(100)]
pub fn radix_sort(arr: Vec<u64>) -> (r: Vec<u64>)
    ensures
        sorted(r@),
        r@.to_multiset() == arr@.to_multiset(),
{
    broadcast use vstd::seq_lib::group_to_multiset_ensures;

    let largest_unit = get_largest_place(&arr);
    let mut counter: u64 = 0;
    let mut buckets = Buckets::new();
    let mut sort_vec: Vec<u64> = Vec::new();
    let mut ci: usize = 0;
    while ci < arr.len()
        invariant
            ci <= arr@.len(),
            sort_vec@ =~= arr@.take(ci as int),
        decreases arr@.len() - ci,
    {
        sort_vec.push(arr[ci]);
        proof {
            assert(sort_vec@ =~= arr@.take(ci + 1 as int));
        }
        ci = ci + 1;
    }
    proof {
        assert(arr@.take(arr@.len() as int) =~= arr@);
        assert(sort_vec@ == arr@);
        assert forall|i: int, j: int|
            0 <= i <= j < sort_vec@.len() implies low(sort_vec@[i], counter as nat) <= low(
            sort_vec@[j],
            counter as nat,
        ) by {
            lemma_low_zero(sort_vec@[i]);
            lemma_low_zero(sort_vec@[j]);
        }
    }
    while counter <= largest_unit
        invariant
            largest_unit <= 19,
            counter <= largest_unit + 1,
            buckets.wf(),
            forall|b: int| 0 <= b < 10 ==> (#[trigger] buckets.q(b)).len() == 0,
            sort_vec@.to_multiset() == arr@.to_multiset(),
            sorted_low(sort_vec@, counter as nat),
            forall|i: int|
                0 <= i < arr@.len() ==> (#[trigger] arr@[i]) < pow10((largest_unit + 1) as nat),
        decreases largest_unit + 1 - counter,
    {
        let ghost s = sort_vec@;
        let p = counter;
        let n = sort_vec.len();
        let mut i: usize = 0;
        while i < n
            invariant
                i <= n,
                n == sort_vec@.len(),
                sort_vec@ == s,
                p <= 19,
                buckets.wf(),
                forall|b: int|
                    0 <= b < 10 ==> #[trigger] buckets.q(b) == s.take(i as int).filter(
                        dpred(p as nat, b),
                    ),
            decreases n - i,
        {
            let ghost qs_pre = buckets;
            let x = sort_vec[i];
            let sort_value = get_value_at_unit(x, p);
            match sort_value {
                0 => buckets.enqueue(0, x),
                1 => buckets.enqueue(1, x),
                2 => buckets.enqueue(2, x),
                3 => buckets.enqueue(3, x),
                4 => buckets.enqueue(4, x),
                5 => buckets.enqueue(5, x),
                6 => buckets.enqueue(6, x),
                7 => buckets.enqueue(7, x),
                8 => buckets.enqueue(8, x),
                9 => buckets.enqueue(9, x),
                _ => buckets.enqueue(0, x),
            }
            proof {
                broadcast use Seq::lemma_filter_push;

                assert(s.take(i + 1 as int) =~= s.take(i as int).push(x));
                assert forall|b: int|
                    0 <= b < 10 implies #[trigger] buckets.q(b) == s.take(i + 1 as int).filter(
                    dpred(p as nat, b),
                ) by {
                    assert(s.take(i as int).push(x).filter(dpred(p as nat, b)) == if dpred(
                        p as nat,
                        b,
                    )(x) {
                        s.take(i as int).filter(dpred(p as nat, b)).push(x)
                    } else {
                        s.take(i as int).filter(dpred(p as nat, b))
                    });
                    if b == sort_value {
                        assert(dval(x, p as nat) == b);
                        assert(buckets.q(b) == qs_pre.q(b).push(x));
                    } else {
                        assert(dval(x, p as nat) != b);
                        assert(buckets.q(b) == qs_pre.q(b));
                    }
                }
            }
            i = i + 1;
        }
        proof {
            assert(s.take(n as int) =~= s);
        }
        sort_vec.clear();
        let mut b: usize = 0;
        while b < 10
            invariant
                b <= 10,
                buckets.wf(),
                p <= 19,
                sort_vec@ == parts_concat(s, p as nat, b as int),
                forall|bb: int|
                    b <= bb < 10 ==> #[trigger] buckets.q(bb) == s.filter(dpred(p as nat, bb)),
                forall|bb: int| 0 <= bb < b ==> (#[trigger] buckets.q(bb)).len() == 0,
            decreases 10 - b,
        {
            let ghost fseq = s.filter(dpred(p as nat, b as int));
            let ghost base = sort_vec@;
            loop
                invariant_except_break
                    buckets.wf(),
                    b < 10,
                    p <= 19,
                    sort_vec@ + buckets.q(b as int) == base + fseq,
                    buckets.q(b as int).len() <= fseq.len(),
                    forall|bb: int|
                        b < bb < 10 ==> #[trigger] buckets.q(bb) == s.filter(dpred(p as nat, bb)),
                    forall|bb: int| 0 <= bb < b ==> (#[trigger] buckets.q(bb)).len() == 0,
                ensures
                    buckets.wf(),
                    sort_vec@ == base + fseq,
                    buckets.q(b as int).len() == 0,
                    forall|bb: int|
                        b < bb < 10 ==> #[trigger] buckets.q(bb) == s.filter(dpred(p as nat, bb)),
                    forall|bb: int| 0 <= bb < b ==> (#[trigger] buckets.q(bb)).len() == 0,
                decreases buckets.q(b as int).len(),
            {
                let ghost svp = sort_vec@;
                let ghost qp = buckets.q(b as int);
                match buckets.dequeue(b) {
                    Some(value) => {
                        sort_vec.push(value);
                        proof {
                            assert(sort_vec@ + buckets.q(b as int) =~= svp + qp);
                        }
                    },
                    None => {
                        proof {
                            assert(sort_vec@ + buckets.q(b as int) =~= sort_vec@);
                        }
                        break ;
                    },
                }
            }
            proof {
                assert(parts_concat(s, p as nat, (b + 1) as int) == parts_concat(
                    s,
                    p as nat,
                    b as int,
                ) + s.filter(dpred(p as nat, b as int)));
            }
            b = b + 1;
        }
        proof {
            assert(sort_vec@ == parts_concat(s, p as nat, 10));
            lemma_parts_multiset(s, p as nat);
            lemma_parts_sorted(s, p as nat, 10);
            assert(sorted_low(sort_vec@, (counter + 1) as nat));
        }
        counter = counter + 1;
    }
    proof {
        assert(counter == largest_unit + 1);
        assert forall|i: int, j: int|
            0 <= i <= j < sort_vec@.len() implies sort_vec@[i] <= sort_vec@[j] by {
            assert(sort_vec@.contains(sort_vec@[i]));
            assert(sort_vec@.contains(sort_vec@[j]));
            assert(sort_vec@.to_multiset().contains(sort_vec@[i]));
            assert(sort_vec@.to_multiset().contains(sort_vec@[j]));
            assert(arr@.contains(sort_vec@[i]));
            assert(arr@.contains(sort_vec@[j]));
            let ki = choose|k: int| 0 <= k < arr@.len() && arr@[k] == sort_vec@[i];
            let kj = choose|k: int| 0 <= k < arr@.len() && arr@[k] == sort_vec@[j];
            lemma_pow10_pos(counter as nat);
            vstd::arithmetic::div_mod::lemma_small_mod(
                sort_vec@[i] as nat,
                pow10(counter as nat) as nat,
            );
            vstd::arithmetic::div_mod::lemma_small_mod(
                sort_vec@[j] as nat,
                pow10(counter as nat) as nat,
            );
            assert(low(sort_vec@[i], counter as nat) <= low(sort_vec@[j], counter as nat));
        }
    }
    sort_vec
}

} // verus!
