use vstd::prelude::*;

verus! {

/// One collision record: a digest value paired with how many times it occurs
/// in the batch.
pub struct Collision {
    pub hash: Vec<u8>,
    pub count: usize,
}

/// The byte sequences held by a collection of digest vectors.
pub open spec fn views_of(s: Seq<Vec<u8>>) -> Seq<Seq<u8>> {
    s.map_values(|d: Vec<u8>| d@)
}

/// How many positions of `s` hold exactly the value `v`.
pub open spec fn occurrence_count(s: Seq<Seq<u8>>, v: Seq<u8>) -> nat
    decreases s.len(),
{
    if s.len() == 0 {
        0
    } else {
        occurrence_count(s.drop_last(), v) + if s.last() == v {
            1nat
        } else {
            0nat
        }
    }
}

/// The distinct values of `s`, in order of first occurrence.
pub open spec fn distinct_in_order(s: Seq<Seq<u8>>) -> Seq<Seq<u8>>
    decreases s.len(),
{
    if s.len() == 0 {
        Seq::empty()
    } else {
        let d = distinct_in_order(s.drop_last());
        if d.contains(s.last()) {
            d
        } else {
            d.push(s.last())
        }
    }
}

/// The collision records of a digest collection: one (value, count) pair per
/// distinct value, in order of first occurrence, each with its total
/// occurrence count.
pub open spec fn records_of(s: Seq<Seq<u8>>) -> Seq<(Seq<u8>, nat)> {
    distinct_in_order(s).map_values(|v: Seq<u8>| (v, occurrence_count(s, v)))
}

/// The (value, count) pairs carried by a collection of collision records.
pub open spec fn record_views(s: Seq<Collision>) -> Seq<(Seq<u8>, nat)> {
    s.map_values(|c: Collision| (c.hash@, c.count as nat))
}

/// Whether a record is reported: its count strictly exceeds the threshold,
/// and it is an actual collision — a value seen only once is never reported,
/// whatever the threshold.
pub open spec fn reported(count: nat, t: nat) -> bool {
    count > t && count >= 2
}

/// The pairs that are reported, order kept.
pub open spec fn filtered_pairs(s: Seq<(Seq<u8>, nat)>, t: nat) -> Seq<(Seq<u8>, nat)>
    decreases s.len(),
{
    if s.len() == 0 {
        Seq::empty()
    } else {
        let r = filtered_pairs(s.drop_last(), t);
        if reported(s.last().1, t) {
            r.push(s.last())
        } else {
            r
        }
    }
}

/// The total of all counts in a record collection.
pub open spec fn sum_of_counts(rv: Seq<(Seq<u8>, nat)>) -> nat
    decreases rv.len(),
{
    if rv.len() == 0 {
        0
    } else {
        sum_of_counts(rv.drop_last()) + rv.last().1
    }
}

/// A value occurs no more often than the collection is long.
pub proof fn lemma_occurrence_le_len(s: Seq<Seq<u8>>, v: Seq<u8>)
    ensures
        occurrence_count(s, v) <= s.len(),
    decreases s.len(),
{
    if s.len() > 0 {
        lemma_occurrence_le_len(s.drop_last(), v);
    }
}

/// A value occurs zero times exactly when the collection does not contain it.
pub proof fn lemma_occurrence_zero(s: Seq<Seq<u8>>, v: Seq<u8>)
    ensures
        (occurrence_count(s, v) == 0) <==> !s.contains(v),
    decreases s.len(),
{
    if s.len() == 0 {
    } else {
        let t = s.drop_last();
        lemma_occurrence_zero(t, v);
        if s.last() == v {
            assert(s[s.len() - 1] == v);
        } else {
            if s.contains(v) {
                let i: int = choose|i: int| 0 <= i < s.len() && s[i] == v;
                assert(t[i] == v);
                assert(t.contains(v));
            }
            if t.contains(v) {
                let i: int = choose|i: int| 0 <= i < t.len() && t[i] == v;
                assert(s[i] == v);
            }
        }
    }
}

/// One unfolding step of `occurrence_count` at a pushed value.
proof fn lemma_occ_push(t: Seq<Seq<u8>>, x: Seq<u8>, v: Seq<u8>)
    ensures
        occurrence_count(t.push(x), v) == occurrence_count(t, v) + if x == v {
            1nat
        } else {
            0nat
        },
{
    assert(t.push(x).drop_last() =~= t);
    assert(t.push(x).last() == x);
}

/// One unfolding step of `distinct_in_order` at a pushed value.
proof fn lemma_distinct_push(t: Seq<Seq<u8>>, x: Seq<u8>)
    ensures
        distinct_in_order(t).contains(x) ==> distinct_in_order(t.push(x)) == distinct_in_order(t),
        !distinct_in_order(t).contains(x) ==> distinct_in_order(t.push(x)) == distinct_in_order(
            t,
        ).push(x),
{
    assert(t.push(x).drop_last() =~= t);
    assert(t.push(x).last() == x);
}

/// Law: the recorded values are exactly the values occurring in the input.
pub proof fn lemma_distinct_contains(s: Seq<Seq<u8>>, v: Seq<u8>)
    ensures
        distinct_in_order(s).contains(v) <==> s.contains(v),
    decreases s.len(),
{
    if s.len() == 0 {
    } else {
        let t = s.drop_last();
        let x = s.last();
        lemma_distinct_contains(t, v);
        let d = distinct_in_order(t);
        if s.contains(v) {
            let i: int = choose|i: int| 0 <= i < s.len() && s[i] == v;
            if i < s.len() - 1 {
                assert(t[i] == v);
                assert(t.contains(v));
            } else {
                assert(v == x);
            }
        }
        if t.contains(v) {
            let i: int = choose|i: int| 0 <= i < t.len() && t[i] == v;
            assert(s[i] == v);
            assert(s.contains(v));
        }
        if d.contains(x) {
            if v == x {
                assert(t.contains(v));
            }
        } else {
            if d.push(x).contains(v) {
                let i: int = choose|i: int| 0 <= i < d.push(x).len() && d.push(x)[i] == v;
                if i < d.len() {
                    assert(d[i] == v);
                    assert(d.contains(v));
                } else {
                    assert(v == x);
                    assert(s[s.len() - 1] == v);
                }
            }
            if v == x {
                assert(d.push(x)[d.len() as int] == v);
                assert(d.push(x).contains(v));
            }
            if d.contains(v) {
                let i: int = choose|i: int| 0 <= i < d.len() && d[i] == v;
                assert(d.push(x)[i] == v);
                assert(d.push(x).contains(v));
            }
        }
    }
}

/// Law: one record per distinct digest value — the recorded values carry no
/// duplicates.
pub proof fn lemma_distinct_no_dup(s: Seq<Seq<u8>>)
    ensures
        distinct_in_order(s).no_duplicates(),
    decreases s.len(),
{
    if s.len() == 0 {
    } else {
        let t = s.drop_last();
        let x = s.last();
        lemma_distinct_no_dup(t);
        let d = distinct_in_order(t);
        if !d.contains(x) {
            assert forall|i: int, j: int|
                0 <= i < d.push(x).len() && 0 <= j < d.push(x).len() && i != j implies d.push(x)[i]
                != d.push(x)[j] by {
                if i < d.len() && j < d.len() {
                    assert(d[i] != d[j]);
                } else if j == d.len() {
                    assert(d.push(x)[j] == x);
                    if d[i] == x {
                        assert(d.contains(x));
                    }
                } else {
                    assert(d.push(x)[i] == x);
                    if d[j] == x {
                        assert(d.contains(x));
                    }
                }
            }
        }
    }
}

/// Appending a value that was already recorded raises that record's count by
/// one and changes nothing else.
proof fn lemma_records_of_push_seen(t: Seq<Seq<u8>>, x: Seq<u8>, j: int)
    requires
        0 <= j < distinct_in_order(t).len(),
        distinct_in_order(t)[j] == x,
    ensures
        records_of(t.push(x)) == records_of(t).update(
            j,
            (x, (occurrence_count(t, x) + 1) as nat),
        ),
{
    let d = distinct_in_order(t);
    assert(d.contains(x));
    lemma_distinct_push(t, x);
    lemma_distinct_no_dup(t);
    let upd = records_of(t).update(j, (x, (occurrence_count(t, x) + 1) as nat));
    assert forall|k: int| 0 <= k < d.len() implies records_of(t.push(x))[k] == upd[k] by {
        lemma_occ_push(t, x, d[k]);
        if k != j {
            assert(d[k] != d[j]);
        }
    }
    assert(records_of(t.push(x)) =~= upd);
}

/// Appending a value never seen before adds one record with count one and
/// changes nothing else.
proof fn lemma_records_of_push_new(t: Seq<Seq<u8>>, x: Seq<u8>)
    requires
        !distinct_in_order(t).contains(x),
    ensures
        records_of(t.push(x)) == records_of(t).push((x, 1nat)),
{
    let d = distinct_in_order(t);
    lemma_distinct_push(t, x);
    lemma_distinct_contains(t, x);
    lemma_occurrence_zero(t, x);
    let ext = records_of(t).push((x, 1nat));
    assert forall|k: int| 0 <= k < d.push(x).len() implies records_of(t.push(x))[k] == ext[k] by {
        lemma_occ_push(t, x, d.push(x)[k]);
        if k < d.len() {
            assert(d[k] == d.push(x)[k]);
            if d[k] == x {
                assert(d.contains(x));
            }
        } else {
            assert(d.push(x)[k] == x);
        }
    }
    assert(records_of(t.push(x)) =~= ext);
}

/// Raising one count by one raises the total by one.
proof fn lemma_sum_update(rv: Seq<(Seq<u8>, nat)>, j: int)
    requires
        0 <= j < rv.len(),
    ensures
        sum_of_counts(rv.update(j, (rv[j].0, (rv[j].1 + 1) as nat))) == sum_of_counts(rv) + 1,
    decreases rv.len(),
{
    let rv2 = rv.update(j, (rv[j].0, (rv[j].1 + 1) as nat));
    if j == rv.len() - 1 {
        assert(rv2.drop_last() =~= rv.drop_last());
        assert(rv2.last() == (rv[j].0, (rv[j].1 + 1) as nat));
    } else {
        assert(rv.drop_last()[j] == rv[j]);
        lemma_sum_update(rv.drop_last(), j);
        assert(rv2.drop_last() =~= rv.drop_last().update(j, (rv[j].0, (rv[j].1 + 1) as nat)));
        assert(rv2.last() == rv.last());
    }
}

/// Law: before any filtering, the occurrence counts over the distinct digest
/// values sum to the size of the batch.
pub proof fn lemma_counts_sum(s: Seq<Seq<u8>>)
    ensures
        sum_of_counts(records_of(s)) == s.len(),
    decreases s.len(),
{
    if s.len() == 0 {
        assert(distinct_in_order(s) =~= Seq::<Seq<u8>>::empty());
        assert(records_of(s) =~= Seq::<(Seq<u8>, nat)>::empty());
    } else {
        let t = s.drop_last();
        let x = s.last();
        lemma_counts_sum(t);
        assert(t.push(x) =~= s);
        let d = distinct_in_order(t);
        if d.contains(x) {
            let j: int = choose|j: int| 0 <= j < d.len() && d[j] == x;
            lemma_records_of_push_seen(t, x, j);
            assert(records_of(t)[j] == (x, occurrence_count(t, x)));
            lemma_sum_update(records_of(t), j);
        } else {
            lemma_records_of_push_new(t, x);
            let rp = records_of(t).push((x, 1nat));
            assert(rp.drop_last() =~= records_of(t));
            assert(rp.last() == (x, 1nat));
        }
    }
}

/// A value standing at two different positions occurs at least twice.
proof fn lemma_occurrence_at_least_two(s: Seq<Seq<u8>>, i: int, j: int)
    requires
        0 <= i < j < s.len(),
        s[i] == s[j],
    ensures
        occurrence_count(s, s[i]) >= 2,
    decreases s.len(),
{
    let t = s.drop_last();
    if j == s.len() - 1 {
        assert(s.last() == s[i]);
        assert(t[i] == s[i]);
        assert(t.contains(s[i]));
        lemma_occurrence_zero(t, s[i]);
    } else {
        assert(t[i] == s[i]);
        assert(t[j] == s[j]);
        lemma_occurrence_at_least_two(t, i, j);
    }
}

/// Law: two positions holding byte-identical digests are counted into one
/// record, whose count covers both.
pub proof fn lemma_collision_counted(s: Seq<Seq<u8>>, i: int, j: int)
    requires
        0 <= i < j < s.len(),
        s[i] == s[j],
    ensures
        exists|k: int|
            0 <= k < records_of(s).len() && (#[trigger] records_of(s)[k]).0 == s[i] && records_of(
                s,
            )[k].1 >= 2,
{
    let d = distinct_in_order(s);
    assert(s.contains(s[i]));
    lemma_distinct_contains(s, s[i]);
    let k: int = choose|k: int| 0 <= k < d.len() && d[k] == s[i];
    lemma_occurrence_at_least_two(s, i, j);
    assert(records_of(s)[k] == (d[k], occurrence_count(s, d[k])));
    assert(records_of(s)[k].0 == s[i] && records_of(s)[k].1 >= 2);
}

/// Law: every record carries a count of at least one — it was created for a
/// value that occurs in the batch.
pub proof fn lemma_record_counts_positive(s: Seq<Seq<u8>>, k: int)
    requires
        0 <= k < records_of(s).len(),
    ensures
        records_of(s)[k].1 >= 1,
{
    let d = distinct_in_order(s);
    assert(records_of(s)[k] == (d[k], occurrence_count(s, d[k])));
    assert(d.contains(d[k]));
    lemma_distinct_contains(s, d[k]);
    lemma_occurrence_zero(s, d[k]);
}

/// Law: a (value, count) pair is reported exactly when it stands in the
/// records and its count both strictly exceeds the threshold and names an
/// actual collision.
pub proof fn lemma_reported_iff(s: Seq<(Seq<u8>, nat)>, t: nat, p: (Seq<u8>, nat))
    ensures
        filtered_pairs(s, t).contains(p) <==> (s.contains(p) && reported(p.1, t)),
    decreases s.len(),
{
    if s.len() == 0 {
    } else {
        let r = s.drop_last();
        let x = s.last();
        lemma_reported_iff(r, t, p);
        if s.contains(p) {
            let i: int = choose|i: int| 0 <= i < s.len() && s[i] == p;
            if i < s.len() - 1 {
                assert(r[i] == p);
                assert(r.contains(p));
            } else {
                assert(p == x);
            }
        }
        if r.contains(p) {
            let i: int = choose|i: int| 0 <= i < r.len() && r[i] == p;
            assert(s[i] == p);
            assert(s.contains(p));
        }
        let fr = filtered_pairs(r, t);
        if reported(x.1, t) {
            if fr.push(x).contains(p) {
                let i: int = choose|i: int| 0 <= i < fr.push(x).len() && fr.push(x)[i] == p;
                if i < fr.len() {
                    assert(fr[i] == p);
                    assert(fr.contains(p));
                } else {
                    assert(p == x);
                    assert(s[s.len() - 1] == p);
                }
            }
            if fr.contains(p) {
                let i: int = choose|i: int| 0 <= i < fr.len() && fr[i] == p;
                assert(fr.push(x)[i] == p);
                assert(fr.push(x).contains(p));
            }
            if p == x {
                assert(fr.push(x)[fr.len() as int] == p);
                assert(fr.push(x).contains(p));
            }
        } else {
            if p == x {
                assert(!reported(p.1, t));
            }
        }
    }
}

/// Law: counting is idempotent — the records computed from a digest
/// collection are a function of that collection alone, so counting the same
/// collection twice yields identical (digest, count) pairs.
pub proof fn lemma_counting_idempotent(s1: Seq<Seq<u8>>, s2: Seq<Seq<u8>>)
    requires
        s1 == s2,
    ensures
        records_of(s1) == records_of(s2),
{
}

/// Whether two digests hold exactly the same bytes: the collision criterion.
pub fn bytes_equal(a: &Vec<u8>, b: &Vec<u8>) -> (r: bool)
    ensures
        r == (a@ == b@),
{
    if a.len() != b.len() {
        return false;
    }
    let mut i: usize = 0;
    while i < a.len()
        invariant
            i <= a@.len(),
            a@.len() == b@.len(),
            forall|k: int| 0 <= k < i ==> a@[k] == b@[k],
        decreases a@.len() - i,
    {
        if a[i] != b[i] {
            return false;
        }
        i = i + 1;
    }
    proof {
        assert(a@ =~= b@);
    }
    true
}

/// A fresh vector holding the same bytes.
pub fn clone_bytes(v: &Vec<u8>) -> (r: Vec<u8>)
    ensures
        r@ == v@,
{
    let mut r: Vec<u8> = Vec::new();
    let mut i: usize = 0;
    while i < v.len()
        invariant
            i <= v@.len(),
            r@ == v@.take(i as int),
        decreases v@.len() - i,
    {
        r.push(v[i]);
        proof {
            assert(r@ =~= v@.take(i + 1 as int));
        }
        i = i + 1;
    }
    proof {
        assert(v@.take(v@.len() as int) =~= v@);
    }
    r
}

/// The collision counter: one record per distinct digest value, in order of
/// first occurrence, each carrying the value's total occurrence count among
/// the whole batch.
pub fn count_collisions(digests: &Vec<Vec<u8>>) -> (records: Vec<Collision>)
    ensures
        record_views(records@) == records_of(views_of(digests@)),
{
    let ghost dv = views_of(digests@);
    let mut records: Vec<Collision> = Vec::new();
    let mut i: usize = 0;
    while i < digests.len()
        invariant
            i <= digests@.len(),
            dv == views_of(digests@),
            record_views(records@) == records_of(dv.take(i as int)),
        decreases digests@.len() - i,
    {
        let ghost prior = dv.take(i as int);
        let ghost x = dv[i as int];
        proof {
            assert(x == digests@[i as int]@);
            assert(prior.push(x) =~= dv.take(i + 1 as int));
        }
        let mut j: usize = 0;
        let mut found: bool = false;
        while j < records.len() && !found
            invariant
                j <= records@.len(),
                i < digests@.len(),
                x == digests@[i as int]@,
                record_views(records@) == records_of(prior),
                found ==> j < records@.len() && records@[j as int].hash@ == x,
                !found ==> forall|k: int| 0 <= k < j ==> (#[trigger] records@[k]).hash@ != x,
            decreases records@.len() - j + if found {
                0int
            } else {
                1int
            },
        {
            if bytes_equal(&records[j].hash, &digests[i]) {
                found = true;
            } else {
                j = j + 1;
            }
        }
        if found {
            proof {
                let d = distinct_in_order(prior);
                assert(record_views(records@).len() == records@.len());
                assert(records_of(prior).len() == d.len());
                assert(record_views(records@)[j as int] == (
                    records@[j as int].hash@,
                    records@[j as int].count as nat,
                ));
                assert(records_of(prior)[j as int] == (
                    d[j as int],
                    occurrence_count(prior, d[j as int]),
                ));
                assert(d[j as int] == records@[j as int].hash@);
                assert(d[j as int] == x);
                assert(records@[j as int].count as nat == occurrence_count(prior, x));
                lemma_occurrence_le_len(prior, x);
            }
            let ghost before = records@;
            let r = &mut records[j];
            let c = r.count;
            r.count = c + 1;
            proof {
                lemma_records_of_push_seen(prior, x, j as int);
                let upd = records_of(prior).update(
                    j as int,
                    (x, (occurrence_count(prior, x) + 1) as nat),
                );
                assert(records@ == before.update(j as int, records@[j as int]));
                assert(records@[j as int].hash@ == x);
                assert(records@[j as int].count as nat == occurrence_count(prior, x) + 1);
                assert(record_views(records@) =~= upd);
                assert(record_views(records@) == records_of(dv.take(i + 1 as int)));
            }
        } else {
            proof {
                let d = distinct_in_order(prior);
                if d.contains(x) {
                    let k: int = choose|k: int| 0 <= k < d.len() && d[k] == x;
                    assert(record_views(records@).len() == records@.len());
                    assert(records_of(prior).len() == d.len());
                    assert(record_views(records@)[k] == (
                        records@[k].hash@,
                        records@[k].count as nat,
                    ));
                    assert(records_of(prior)[k] == (d[k], occurrence_count(prior, d[k])));
                    assert(records@[k].hash@ == x);
                }
                lemma_records_of_push_new(prior, x);
            }
            let hash = clone_bytes(&digests[i]);
            records.push(Collision { hash, count: 1 });
            proof {
                assert(record_views(records@) =~= records_of(prior).push((x, 1nat)));
                assert(record_views(records@) == records_of(dv.take(i + 1 as int)));
            }
        }
        i = i + 1;
    }
    proof {
        assert(dv.take(dv.len() as int) =~= dv);
    }
    records
}

/// Keeps exactly the records whose count strictly exceeds the threshold and
/// names an actual collision (a count of one is never reported), in their
/// given order.
pub fn filter_collisions(records: &Vec<Collision>, threshold: usize) -> (out: Vec<Collision>)
    ensures
        record_views(out@) == filtered_pairs(record_views(records@), threshold as nat),
{
    let ghost rv = record_views(records@);
    let mut out: Vec<Collision> = Vec::new();
    let mut i: usize = 0;
    while i < records.len()
        invariant
            i <= records@.len(),
            rv == record_views(records@),
            record_views(out@) == filtered_pairs(rv.take(i as int), threshold as nat),
        decreases records@.len() - i,
    {
        proof {
            assert(rv.take(i + 1 as int).drop_last() =~= rv.take(i as int));
            assert(rv.take(i + 1 as int).last() == rv[i as int]);
        }
        if records[i].count > threshold && records[i].count >= 2 {
            let hash = clone_bytes(&records[i].hash);
            let count = records[i].count;
            out.push(Collision { hash, count });
            proof {
                assert(record_views(out@) =~= filtered_pairs(
                    rv.take(i + 1 as int),
                    threshold as nat,
                ));
            }
        } else {
            proof {
                assert(record_views(out@) == filtered_pairs(
                    rv.take(i + 1 as int),
                    threshold as nat,
                ));
            }
        }
        i = i + 1;
    }
    proof {
        assert(rv.take(rv.len() as int) =~= rv);
    }
    out
}

} // verus!
