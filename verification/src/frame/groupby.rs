//! Grouping the rows of a table by the values of a key column, and
//! aggregating every other column per group.
use vstd::prelude::*;
use crate::frame::aggregate::Agg;
use crate::frame::dataframe::{DataFrame, name_position};
use crate::frame::error::{Error, Result};
use crate::frame::index::{Index, distinct_labels};
use crate::frame::series::Series;
use crate::frame::stats::{int_mean, lemma_mean_between_min_and_max, lemma_min_max, prefix_max, prefix_min, prefix_sum, sums_fit};
use crate::frame::text::{int_string, int_text, lemma_int_text_injective, same_text};
use crate::frame::metrics::{lemma_total_of_step, total_of};

verus! {

/// The distinct values among the first `n`, in order of first appearance.
pub open spec fn first_keys(s: Seq<i64>, n: int) -> Seq<i64>
    decreases n,
{
    if n <= 0 {
        Seq::empty()
    } else if first_keys(s, n - 1).contains(s[n - 1]) {
        first_keys(s, n - 1)
    } else {
        first_keys(s, n - 1).push(s[n - 1])
    }
}

/// The values `v` holds at those of the first `n` rows whose key is `g`.
pub open spec fn group_values(keys: Seq<i64>, v: Seq<i64>, g: i64, n: int) -> Seq<i64>
    decreases n,
{
    if n <= 0 {
        Seq::empty()
    } else if keys[n - 1] == g {
        group_values(keys, v, g, n - 1).push(v[n - 1])
    } else {
        group_values(keys, v, g, n - 1)
    }
}

/// The aggregate of the values of a non-empty group.
pub open spec fn agg_value(op: Agg, vals: Seq<i64>) -> i64 {
    match op {
        Agg::Sum => prefix_sum(vals, vals.len() as int) as i64,
        Agg::Mean => int_mean(vals) as i64,
        Agg::Min => prefix_min(vals, vals.len() as int),
        Agg::Max => prefix_max(vals, vals.len() as int),
        Agg::Count => vals.len() as i64,
    }
}

/// The aggregate of the values fits in `i64` along the way.
pub open spec fn agg_fits(op: Agg, vals: Seq<i64>) -> bool {
    match op {
        Agg::Sum => sums_fit(vals),
        Agg::Mean => sums_fit(vals),
        _ => true,
    }
}

/// Positions of the columns among the first `k` whose name is not `key`.
pub open spec fn other_columns(names: Seq<Seq<char>>, key: Seq<char>, k: int) -> Seq<int>
    decreases k,
{
    if k <= 0 {
        Seq::empty()
    } else if names[k - 1] == key {
        other_columns(names, key, k - 1)
    } else {
        other_columns(names, key, k - 1).push(k - 1)
    }
}

/// The table `out` aggregates `df` grouped by the column `key` with `op`:
/// one row per distinct key value, in order of first appearance, labelled
/// by the value's text; one column per other column of `df`, in order, with
/// the aggregate of that column's values in the group. With no rows, or no
/// other column, the result is the empty table.
pub open spec fn grouped_frame(df: DataFrame<i64>, key: Seq<char>, op: Agg, out: DataFrame<i64>) -> bool {
    let kv = df.column_values(key);
    let n = df.index_view().len() as int;
    let gs = first_keys(kv, n);
    let cs = other_columns(df.names(), key, df.names().len() as int);
    if gs.len() == 0 || cs.len() == 0 {
        out.names() == Seq::<Seq<char>>::empty() && out.index_view() == Seq::<Seq<char>>::empty()
    } else {
        &&& out.names() == cs.map_values(|c: int| df.names()[c])
        &&& out.index_view() == gs.map_values(|g: i64| int_text(g as int))
        &&& out.series().len() == cs.len()
        &&& forall|j: int|
            0 <= j < cs.len() ==> (#[trigger] out.series()[j]).values_view() == gs.map_values(
                |g: i64| agg_value(op, group_values(kv, df.series()[cs[j]].values_view(), g, n)),
            )
    }
}

/// Rows of a table grouped by the values of one of its columns.
pub struct GroupBy<'a> {
    df: &'a DataFrame<i64>,
    key: String,
}

impl<'a> GroupBy<'a> {
    /// The key names a column of the table.
    #[verifier::type_invariant]
    spec fn inv(self) -> bool {
        self.df.names().contains(self.key@)
    }

    /// The grouped table.
    pub closed spec fn frame(&self) -> DataFrame<i64> {
        *self.df
    }

    /// The name of the key column.
    pub closed spec fn key_name(&self) -> Seq<char> {
        self.key@
    }

    /// Groups `df` by the column `key`, which must exist.
    pub fn new(df: &'a DataFrame<i64>, key: &str) -> (r: Result<Self>)
        ensures
            df.names().contains(key@) ==> (r matches Ok(g) && g.frame() == *df && g.key_name() == key@),
            !df.names().contains(key@) ==> (r matches Err(Error::KeyNotFound(k)) && k@ == key@),
    {
        if !df.has_column(key) {
            return Err(Error::KeyNotFound(String::from_str(key)));
        }
        Ok(GroupBy { df, key: String::from_str(key) })
    }

    /// Aggregates every column but the key with `op`, one row per group.
    #[verifier::loop_isolation(false)]
    pub fn agg(&self, op: Agg) -> (r: Result<DataFrame<i64>>)
        requires
            forall|c: int, g: i64|
                0 <= c < self.frame().series().len() ==> agg_fits(
                    op,
                    #[trigger] group_values(
                        self.frame().column_values(self.key_name()),
                        self.frame().series()[c].values_view(),
                        g,
                        self.frame().index_view().len() as int,
                    ),
                ),
        ensures
            r matches Ok(out) && grouped_frame(self.frame(), self.key_name(), op, out),
    {
        proof {
            use_type_invariant(self);
            use_type_invariant(self.df);
        }
        let df = self.df;
        let ghost key = self.key@;
        let ghost names = df.names();
        let kcol = match df.column(self.key.as_str()) {
            Ok(s) => s,
            Err(_) => {
                proof {
                    assert(false);
                }
                return Ok(DataFrame::empty());
            },
        };
        let ghost kv = kcol.values_view();
        let n = df.nrows();
        let kn = kcol.len();
        assert(kn == n);
        assert(kv == df.column_values(key));
        // The distinct key values, in order of first appearance.
        let mut keys: Vec<i64> = Vec::new();
        let mut i: usize = 0;
        while i < n
            invariant
                i <= n,
                keys@ == first_keys(kv, i as int),
            decreases n - i,
        {
            let v = value_at(kcol, i);
            if !contains_value(&keys, v) {
                keys.push(v);
            }
            i = i + 1;
        }
        let ghost gs = keys@;
        proof {
            lemma_first_keys_distinct(kv, n as int);
            lemma_first_keys_len(kv, n as int);
        }
        // Positions of the other columns.
        let ncols = df.ncols();
        let names_now = df.columns();
        let mut others: Vec<usize> = Vec::new();
        let mut c: usize = 0;
        while c < ncols
            invariant
                c <= ncols,
                ncols == names.len(),
                names_now@.len() == ncols,
                forall|j: int| 0 <= j < ncols ==> #[trigger] names_now@[j]@ == names[j],
                others@.len() == other_columns(names, key, c as int).len(),
                forall|j: int| 0 <= j < others@.len() ==> #[trigger] others@[j] as int == other_columns(names, key, c as int)[j],
            decreases ncols - c,
        {
            if !same_text(names_now[c], self.key.as_str()) {
                others.push(c);
            }
            c = c + 1;
        }
        let ghost cs = other_columns(names, key, ncols as int);
        proof {
            lemma_other_columns_increasing(names, key, ncols as int);
        }
        if keys.len() == 0 || others.len() == 0 {
            return Ok(DataFrame::empty());
        }
        // One aggregated column per other column.
        let mut data: Vec<(String, Vec<i64>)> = Vec::new();
        let mut j: usize = 0;
        while j < others.len()
            invariant
                j <= others@.len(),
                others@.len() == cs.len(),
                forall|t: int| 0 <= t < others@.len() ==> #[trigger] others@[t] as int == cs[t],
                forall|t: int| 0 <= t < cs.len() ==> 0 <= #[trigger] cs[t] < ncols,
                data@.len() == j,
                forall|t: int| 0 <= t < j ==> (#[trigger] data@[t]).0@ == names[cs[t]],
                forall|t: int| 0 <= t < j ==> (#[trigger] data@[t]).1@ == gs.map_values(
                    |g: i64| agg_value(op, group_values(kv, df.series()[cs[t]].values_view(), g, n as int)),
                ),
            decreases others@.len() - j,
        {
            let pos = others[j];
            let col = df.column_at(pos);
            let mut values: Vec<i64> = Vec::new();
            let mut g: usize = 0;
            while g < keys.len()
                invariant
                    g <= keys@.len(),
                    values@.len() == g,
                    forall|t: int| 0 <= t < g ==> #[trigger] values@[t] == agg_value(
                        op,
                        group_values(kv, col.values_view(), gs[t], n as int),
                    ),
                decreases keys@.len() - g,
            {
                let vals = group_of(kcol, col, keys[g]);
                proof {
                    assert(agg_fits(
                        op,
                        group_values(
                            self.frame().column_values(self.key_name()),
                            self.frame().series()[pos as int].values_view(),
                            gs[g as int],
                            self.frame().index_view().len() as int,
                        ),
                    ));
                    lemma_group_nonempty(kv, col.values_view(), gs[g as int], n as int);
                    lemma_group_len(kv, col.values_view(), gs[g as int], n as int);
                }
                let a = aggregate(op, vals);
                values.push(a);
                g = g + 1;
            }
            proof {
                assert(values@ =~= gs.map_values(
                    |g: i64| agg_value(op, group_values(kv, df.series()[cs[j as int]].values_view(), g, n as int)),
                ));
            }
            let name = names_now[pos].clone();
            data.push((name, values));
            j = j + 1;
        }
        // Row labels: the text of each key value.
        let mut labels: Vec<String> = Vec::new();
        let mut g: usize = 0;
        while g < keys.len()
            invariant
                g <= keys@.len(),
                labels@.len() == g,
                forall|t: int| 0 <= t < g ==> #[trigger] labels@[t]@ == int_text(gs[t] as int),
            decreases keys@.len() - g,
        {
            labels.push(int_string(keys[g]));
            g = g + 1;
        }
        let ghost lv = labels@.map_values(|s: String| s@);
        proof {
            assert(lv =~= gs.map_values(|g: i64| int_text(g as int)));
            assert forall|a: int, b: int| 0 <= a < lv.len() && 0 <= b < lv.len() && a != b implies lv[a] != lv[b] by {
                if lv[a] == lv[b] {
                    lemma_int_text_injective(gs[a] as int, gs[b] as int);
                }
            }
        }
        let index = match Index::new(labels) {
            Ok(x) => x,
            Err(e) => {
                proof {
                    assert(false);
                }
                return Err(e);
            },
        };
        proof {
            assert forall|a: int, b: int|
                0 <= a < data@.len() && 0 <= b < data@.len() && a != b implies data@[a].0@ != data@[b].0@ by {
                assert(data@[a].0@ == names[cs[a]]);
                assert(data@[b].0@ == names[cs[b]]);
                assert(cs[a] != cs[b]);
            }
            assert(Seq::new(data@.len(), |k: int| data@[k].0@) =~= cs.map_values(|c: int| names[c]));
        }
        let out = match DataFrame::from_vecs(data, Some(index)) {
            Ok(x) => x,
            Err(e) => {
                proof {
                    assert(false);
                }
                return Err(e);
            },
        };
        proof {
            use_type_invariant(&out);
            assert forall|t: int| 0 <= t < cs.len() implies (#[trigger] out.series()[t]).values_view() == gs.map_values(
                |g: i64| agg_value(op, group_values(kv, df.series()[cs[t]].values_view(), g, n as int)),
            ) by {
                assert(out.series()[t].values_view() == data@[t].1@);
            }
        }
        Ok(out)
    }
}

impl DataFrame<i64> {
    /// Groups the rows by the values of the column `key`.
    pub fn groupby(&self, key: &str) -> (r: Result<GroupBy<'_>>)
        ensures
            self.names().contains(key@) ==> (r matches Ok(g) && g.frame() == *self && g.key_name() == key@),
            !self.names().contains(key@) ==> (r matches Err(Error::KeyNotFound(k)) && k@ == key@),
    {
        GroupBy::new(self, key)
    }
}

/// The value is among the first ones of the vector.
fn contains_value(v: &Vec<i64>, x: i64) -> (r: bool)
    ensures
        r == v@.contains(x),
{
    let mut i: usize = 0;
    while i < v.len()
        invariant
            i <= v@.len(),
            forall|k: int| 0 <= k < i ==> v@[k] != x,
        decreases v@.len() - i,
    {
        if v[i] == x {
            proof {
                assert(v@[i as int] == x);
            }
            return true;
        }
        i = i + 1;
    }
    false
}

/// The value at a position.
fn value_at(s: &Series<i64>, i: usize) -> (r: i64)
    requires
        i < s.values_view().len(),
    ensures
        r == s.values_view()[i as int],
{
    match s.get(i) {
        Ok(v) => v,
        Err(_) => {
            proof {
                assert(false);
            }
            0
        },
    }
}

/// A group holds no more values than there are rows.
proof fn lemma_group_len(keys: Seq<i64>, v: Seq<i64>, g: i64, n: int)
    requires
        n >= 0,
    ensures
        group_values(keys, v, g, n).len() <= n,
    decreases n,
{
    if n > 0 {
        lemma_group_len(keys, v, g, n - 1);
    }
}

/// The values of `col` at the rows whose key is `g`.
fn group_of(keys: &Series<i64>, col: &Series<i64>, g: i64) -> (r: Vec<i64>)
    requires
        keys.index_view() == col.index_view(),
    ensures
        r@ == group_values(keys.values_view(), col.values_view(), g, keys.values_view().len() as int),
{
    let n = keys.len();
    let m = col.len();
    let mut out: Vec<i64> = Vec::new();
    let mut i: usize = 0;
    while i < n
        invariant
            i <= n,
            n == keys.values_view().len(),
            m == n,
            m == col.values_view().len(),
            out@ == group_values(keys.values_view(), col.values_view(), g, i as int),
        decreases n - i,
    {
        if value_at(keys, i) == g {
            out.push(value_at(col, i));
        }
        i = i + 1;
    }
    out
}

/// The aggregate of the values of a non-empty group.
fn aggregate(op: Agg, vals: Vec<i64>) -> (r: i64)
    requires
        vals@.len() > 0,
        vals@.len() <= isize::MAX,
        agg_fits(op, vals@),
    ensures
        r == agg_value(op, vals@),
{
    let count = vals.len();
    let s = Series::from_vec(vals);
    let r = match op {
        Agg::Sum => s.sum(),
        Agg::Mean => s.mean(),
        Agg::Min => s.min(),
        Agg::Max => s.max(),
        Agg::Count => Ok(count as i64),
    };
    match r {
        Ok(v) => v,
        Err(_) => {
            proof {
                assert(false);
            }
            0
        },
    }
}

/// The keys in order of first appearance are distinct.
proof fn lemma_first_keys_distinct(s: Seq<i64>, n: int)
    ensures
        forall|a: int, b: int|
            0 <= a < first_keys(s, n).len() && 0 <= b < first_keys(s, n).len() && a != b ==> first_keys(s, n)[a]
                != first_keys(s, n)[b],
    decreases n,
{
    if n > 0 {
        lemma_first_keys_distinct(s, n - 1);
        let p = first_keys(s, n - 1);
        let q = first_keys(s, n);
        if !p.contains(s[n - 1]) {
            assert forall|a: int, b: int| 0 <= a < q.len() && 0 <= b < q.len() && a != b implies q[a] != q[b] by {
                if a == p.len() {
                    assert(q[b] == p[b]);
                } else if b == p.len() {
                    assert(q[a] == p[a]);
                } else {
                    assert(q[a] == p[a] && q[b] == p[b]);
                }
            }
        }
    }
}

/// There are no more keys than rows, and each key is one of the first values.
proof fn lemma_first_keys_len(s: Seq<i64>, n: int)
    ensures
        n >= 0 ==> first_keys(s, n).len() <= n,
        forall|a: int| #![trigger first_keys(s, n)[a]]
            0 <= a < first_keys(s, n).len() ==> exists|i: int| 0 <= i < n && #[trigger] s[i] == first_keys(s, n)[a],
    decreases n,
{
    if n > 0 {
        lemma_first_keys_len(s, n - 1);
        let p = first_keys(s, n - 1);
        assert forall|a: int| #![trigger first_keys(s, n)[a]] 0 <= a < first_keys(s, n).len() implies exists|i: int|
            0 <= i < n && #[trigger] s[i] == first_keys(s, n)[a] by {
            if a < p.len() {
                assert(first_keys(s, n)[a] == p[a]);
                let i = choose|i: int| 0 <= i < n - 1 && #[trigger] s[i] == p[a];
                assert(s[i] == first_keys(s, n)[a]);
            } else {
                assert(s[n - 1] == first_keys(s, n)[a]);
            }
        }
    }
}

/// A key that occurs among the first `n` rows has a non-empty group.
proof fn lemma_group_nonempty(keys: Seq<i64>, v: Seq<i64>, g: i64, n: int)
    requires
        exists|i: int| 0 <= i < n && #[trigger] keys[i] == g,
    ensures
        group_values(keys, v, g, n).len() > 0,
    decreases n,
{
    if keys[n - 1] != g {
        let i = choose|i: int| 0 <= i < n && #[trigger] keys[i] == g;
        assert(i < n - 1);
        assert(keys[i] == g);
        lemma_group_nonempty(keys, v, g, n - 1);
    }
}

/// The positions of the other columns increase and stay below `k`.
proof fn lemma_other_columns_increasing(names: Seq<Seq<char>>, key: Seq<char>, k: int)
    ensures
        forall|a: int| 0 <= a < other_columns(names, key, k).len() ==> 0 <= #[trigger] other_columns(names, key, k)[a] < k,
        forall|a: int, b: int|
            0 <= a < b < other_columns(names, key, k).len() ==> other_columns(names, key, k)[a] < other_columns(
                names,
                key,
                k,
            )[b],
    decreases k,
{
    if k > 0 {
        lemma_other_columns_increasing(names, key, k - 1);
        let p = other_columns(names, key, k - 1);
        let q = other_columns(names, key, k);
        if names[k - 1] != key {
            assert forall|a: int| 0 <= a < q.len() implies 0 <= #[trigger] q[a] < k by {
                if a < p.len() {
                    assert(q[a] == p[a]);
                }
            }
            assert forall|a: int, b: int| 0 <= a < b < q.len() implies q[a] < q[b] by {
                assert(q[a] == p[a]);
                if b < p.len() {
                    assert(q[b] == p[b]);
                }
            }
        }
    }
}




/// The sizes of the groups of the keys `gs` among the first `n` rows, added up.
pub open spec fn group_sizes(keys: Seq<i64>, v: Seq<i64>, gs: Seq<i64>, n: int) -> int
    decreases gs.len(),
{
    if gs.len() == 0 {
        0
    } else {
        group_sizes(keys, v, gs.drop_last(), n) + group_values(keys, v, gs.last(), n).len()
    }
}

/// How many entries of `gs` are `x`.
pub open spec fn occurrences(gs: Seq<i64>, x: i64) -> int
    decreases gs.len(),
{
    if gs.len() == 0 {
        0
    } else {
        occurrences(gs.drop_last(), x) + if gs.last() == x { 1int } else { 0int }
    }
}

/// One more row adds one to the size of its key's group.
proof fn lemma_sizes_step(keys: Seq<i64>, v: Seq<i64>, gs: Seq<i64>, n: int)
    requires
        n > 0,
    ensures
        group_sizes(keys, v, gs, n) == group_sizes(keys, v, gs, n - 1) + occurrences(gs, keys[n - 1]),
    decreases gs.len(),
{
    if gs.len() > 0 {
        lemma_sizes_step(keys, v, gs.drop_last(), n);
    }
}

/// In distinct keys a key occurs once if it is there at all.
proof fn lemma_occurrences_distinct(gs: Seq<i64>, x: i64)
    requires
        forall|a: int, b: int| 0 <= a < gs.len() && 0 <= b < gs.len() && a != b ==> gs[a] != gs[b],
    ensures
        occurrences(gs, x) == if gs.contains(x) { 1int } else { 0int },
    decreases gs.len(),
{
    if gs.len() > 0 {
        let t = gs.drop_last();
        assert forall|a: int, b: int| 0 <= a < t.len() && 0 <= b < t.len() && a != b implies t[a] != t[b] by {
            assert(t[a] == gs[a] && t[b] == gs[b]);
        }
        lemma_occurrences_distinct(t, x);
        if gs.last() == x {
            assert(gs[gs.len() - 1] == x);
            assert(!t.contains(x)) by {
                if t.contains(x) {
                    let a = choose|a: int| 0 <= a < t.len() && t[a] == x;
                    assert(gs[a] == gs[gs.len() - 1]);
                }
            }
        } else {
            if gs.contains(x) {
                let a = choose|a: int| 0 <= a < gs.len() && gs[a] == x;
                assert(a != gs.len() - 1);
                assert(t[a] == x);
            }
            if t.contains(x) {
                let a = choose|a: int| 0 <= a < t.len() && t[a] == x;
                assert(gs[a] == x);
            }
        }
    }
}

/// Every key among the first `n` rows is one of the group keys.
proof fn lemma_first_keys_cover(s: Seq<i64>, n: int)
    ensures
        forall|i: int| 0 <= i < n ==> first_keys(s, n).contains(#[trigger] s[i]),
    decreases n,
{
    if n > 0 {
        lemma_first_keys_cover(s, n - 1);
        let p = first_keys(s, n - 1);
        assert forall|i: int| 0 <= i < n implies first_keys(s, n).contains(#[trigger] s[i]) by {
            if i < n - 1 {
                assert(p.contains(s[i]));
                let a = choose|a: int| 0 <= a < p.len() && p[a] == s[i];
                if !p.contains(s[n - 1]) {
                    assert(first_keys(s, n)[a] == p[a]);
                }
            } else if !p.contains(s[n - 1]) {
                assert(first_keys(s, n)[p.len() as int] == s[n - 1]);
            }
        }
    }
}

/// A key that no row among the first `n` has gets an empty group.
proof fn lemma_group_absent(keys: Seq<i64>, v: Seq<i64>, g: i64, n: int)
    requires
        forall|i: int| 0 <= i < n ==> keys[i] != g,
    ensures
        group_values(keys, v, g, n).len() == 0,
    decreases n,
{
    if n > 0 {
        lemma_group_absent(keys, v, g, n - 1);
    }
}

/// Every row lies in exactly one group: the sizes of the groups add up to
/// the number of rows.
pub proof fn lemma_groups_partition_rows(keys: Seq<i64>, v: Seq<i64>, n: int)
    requires
        0 <= n,
    ensures
        group_sizes(keys, v, first_keys(keys, n), n) == n,
    decreases n,
{
    if n > 0 {
        lemma_groups_partition_rows(keys, v, n - 1);
        let p = first_keys(keys, n - 1);
        let x = keys[n - 1];
        lemma_first_keys_distinct(keys, n);
        lemma_first_keys_distinct(keys, n - 1);
        lemma_sizes_step(keys, v, first_keys(keys, n), n);
        if p.contains(x) {
            lemma_occurrences_distinct(p, x);
        } else {
            let q = first_keys(keys, n);
            assert(q == p.push(x));
            assert(q.drop_last() =~= p);
            lemma_sizes_step(keys, v, p, n);
            lemma_occurrences_distinct(p, x);
            lemma_occurrences_distinct(q, x);
            lemma_first_keys_cover(keys, n - 1);
            assert forall|i: int| 0 <= i < n - 1 implies keys[i] != x by {
                assert(p.contains(keys[i]));
            }
            lemma_group_absent(keys, v, x, n - 1);
            assert(q.contains(x)) by {
                assert(q[q.len() - 1] == x);
            }
        }
    }
}

/// One entry per row among the first `n`: 1 where the row's key is `g`, else 0.
pub open spec fn key_hits(keys: Seq<i64>, g: i64, n: int) -> Seq<int> {
    Seq::new(n as nat, |r: int| if keys[r] == g { 1int } else { 0int })
}

/// The number of the first `n` rows whose key is `g`.
pub open spec fn rows_with_key(keys: Seq<i64>, g: i64, n: int) -> int {
    total_of(key_hits(keys, g, n))
}

proof fn lemma_rows_step(keys: Seq<i64>, g: i64, m: int)
    requires
        m > 0,
    ensures
        rows_with_key(keys, g, m) == rows_with_key(keys, g, m - 1) + if keys[m - 1] == g { 1int } else { 0int },
{
    let s = key_hits(keys, g, m);
    assert(s.drop_last() =~= key_hits(keys, g, m - 1));
    lemma_total_of_step(s);
}

/// A group holds one value per row with its key.
proof fn lemma_group_len_rows(keys: Seq<i64>, v: Seq<i64>, g: i64, n: int)
    requires
        n >= 0,
    ensures
        group_values(keys, v, g, n).len() == rows_with_key(keys, g, n),
    decreases n,
{
    if n > 0 {
        lemma_group_len_rows(keys, v, g, n - 1);
        lemma_rows_step(keys, g, n);
    }
}

/// The count aggregate of a group is the number of rows with its key.
pub proof fn lemma_count_is_group_size(keys: Seq<i64>, v: Seq<i64>, g: i64, n: int)
    requires
        0 <= n <= i64::MAX,
    ensures
        agg_value(Agg::Count, group_values(keys, v, g, n)) as int == rows_with_key(keys, g, n),
{
    lemma_group_len_rows(keys, v, g, n);
    lemma_rows_bound(keys, g, n);
}

proof fn lemma_rows_bound(keys: Seq<i64>, g: i64, m: int)
    requires
        m >= 0,
    ensures
        0 <= rows_with_key(keys, g, m) <= m,
    decreases m,
{
    if m > 0 {
        lemma_rows_bound(keys, g, m - 1);
        lemma_rows_step(keys, g, m);
    }
}

proof fn lemma_counts_are_sizes(gs: Seq<i64>, keys: Seq<i64>, v: Seq<i64>, n: int)
    requires
        0 <= n <= i64::MAX,
    ensures
        group_sizes(keys, v, gs, n) == total_of(
            gs.map_values(|g: i64| agg_value(Agg::Count, group_values(keys, v, g, n)) as int),
        ),
    decreases gs.len(),
{
    let f = |g: i64| agg_value(Agg::Count, group_values(keys, v, g, n)) as int;
    if gs.len() > 0 {
        lemma_counts_are_sizes(gs.drop_last(), keys, v, n);
        let m = gs.map_values(f);
        assert(m.drop_last() =~= gs.drop_last().map_values(f));
        lemma_count_is_group_size(keys, v, gs.last(), n);
        lemma_group_len_rows(keys, v, gs.last(), n);
        lemma_total_of_step(m);
    }
}

/// The count aggregates of the groups of the first `n` rows add up to `n`:
/// every row is counted once, in the group of its key.
pub proof fn lemma_counts_cover_rows(keys: Seq<i64>, v: Seq<i64>, n: int)
    requires
        0 <= n <= keys.len(),
        n <= i64::MAX,
    ensures
        total_of(
            first_keys(keys, n).map_values(|g: i64| agg_value(Agg::Count, group_values(keys, v, g, n)) as int),
        ) == n,
{
    lemma_counts_are_sizes(first_keys(keys, n), keys, v, n);
    lemma_groups_partition_rows(keys, v, n);
}

/// In a table grouped with the count aggregate, each group's count is the
/// number of rows with its key, and every column adds up to the number of
/// rows of the table grouped.
pub proof fn lemma_grouped_counts(df: DataFrame<i64>, key: Seq<char>, out: DataFrame<i64>)
    requires
        grouped_frame(df, key, Agg::Count, out),
        df.column_values(key).len() == df.index_view().len(),
        df.index_view().len() <= i64::MAX,
        out.names().len() > 0,
    ensures
        forall|j: int, r: int|
            0 <= j < out.series().len() && 0 <= r < out.index_view().len() ==> (#[trigger] out.series()[j].values_view()[r])
                as int == rows_with_key(
                df.column_values(key),
                first_keys(df.column_values(key), df.index_view().len() as int)[r],
                df.index_view().len() as int,
            ),
        forall|j: int|
            0 <= j < out.series().len() ==> total_of(
                (#[trigger] out.series()[j]).values_view().map_values(|x: i64| x as int),
            ) == df.index_view().len(),
{
    let kv = df.column_values(key);
    let n = df.index_view().len() as int;
    let gs = first_keys(kv, n);
    let cs = other_columns(df.names(), key, df.names().len() as int);
    assert(gs.len() > 0 && cs.len() > 0);
    assert forall|j: int, r: int|
        0 <= j < out.series().len() && 0 <= r < out.index_view().len() implies (#[trigger] out.series()[j].values_view()[r])
            as int == rows_with_key(kv, gs[r], n) by {
        let vj = df.series()[cs[j]].values_view();
        assert(out.series()[j].values_view()[r] == agg_value(Agg::Count, group_values(kv, vj, gs[r], n)));
        lemma_count_is_group_size(kv, vj, gs[r], n);
    }
    assert forall|j: int| 0 <= j < out.series().len() implies total_of(
        (#[trigger] out.series()[j]).values_view().map_values(|x: i64| x as int),
    ) == n by {
        let vj = df.series()[cs[j]].values_view();
        lemma_counts_cover_rows(kv, vj, n);
        assert(out.series()[j].values_view().map_values(|x: i64| x as int) =~= gs.map_values(
            |g: i64| agg_value(Agg::Count, group_values(kv, vj, g, n)) as int,
        ));
    }
}

proof fn lemma_prefix_sum_total(s: Seq<i64>, k: int)
    requires
        0 <= k <= s.len(),
    ensures
        prefix_sum(s, k) == total_of(s.take(k).map_values(|x: i64| x as int)),
    decreases k,
{
    let m = s.take(k).map_values(|x: i64| x as int);
    if k > 0 {
        lemma_prefix_sum_total(s, k - 1);
        assert(m.drop_last() =~= s.take(k - 1).map_values(|x: i64| x as int));
        lemma_total_of_step(m);
    }
}

/// The aggregates of a non-empty group, in terms of its values: the sum is
/// the sum of the values; the mean is that sum divided by the number of
/// values, rounded toward zero; the minimum and the maximum are values of the
/// group, no greater and no smaller than any of them; the count is the
/// number of values.
pub proof fn lemma_group_aggregates(vals: Seq<i64>)
    requires
        vals.len() > 0,
        vals.len() <= i64::MAX,
        sums_fit(vals),
    ensures
        ({
            let n = vals.len() as int;
            let t = total_of(vals.map_values(|x: i64| x as int));
            &&& agg_value(Agg::Sum, vals) as int == t
            &&& agg_value(Agg::Mean, vals) as int == if t >= 0 { t / n } else { -((-t) / n) }
            &&& forall|k: int| 0 <= k < n ==> agg_value(Agg::Min, vals) <= #[trigger] vals[k] && vals[k] <= agg_value(Agg::Max, vals)
            &&& exists|k: int| 0 <= k < n && #[trigger] vals[k] == agg_value(Agg::Min, vals)
            &&& exists|k: int| 0 <= k < n && #[trigger] vals[k] == agg_value(Agg::Max, vals)
            &&& agg_value(Agg::Count, vals) as int == n
        }),
{
    let n = vals.len() as int;
    lemma_prefix_sum_total(vals, n);
    assert(vals.take(n) =~= vals);
    assert(i64::MIN <= prefix_sum(vals, n) <= i64::MAX);
    lemma_min_max(vals, n);
    lemma_mean_between_min_and_max(vals);
    let k0 = choose|j: int| 0 <= j < n && vals[j] == prefix_min(vals, n);
    let k1 = choose|j: int| 0 <= j < n && vals[j] == prefix_max(vals, n);
    assert(vals[k0] == agg_value(Agg::Min, vals));
    assert(vals[k1] == agg_value(Agg::Max, vals));
}

/// The rows among the first `n` whose key is `g`, in order.
pub open spec fn rows_of_key(keys: Seq<i64>, g: i64, n: int) -> Seq<int> {
    Seq::new(n as nat, |r: int| r).filter(|r: int| keys[r] == g)
}

/// A group holds, in row order, the values at the rows with its key.
pub proof fn lemma_group_is_rows_of_key(keys: Seq<i64>, v: Seq<i64>, g: i64, n: int)
    requires
        0 <= n,
    ensures
        group_values(keys, v, g, n) == rows_of_key(keys, g, n).map_values(|r: int| v[r]),
    decreases n,
{
    reveal(Seq::filter);
    if n > 0 {
        lemma_group_is_rows_of_key(keys, v, g, n - 1);
        let all = Seq::new(n as nat, |r: int| r);
        assert(all.drop_last() =~= Seq::new((n - 1) as nat, |r: int| r));
        assert(all.last() == n - 1);
        let f = |r: int| keys[r] == g;
        assert(all.filter(f) == if f(n - 1) { all.drop_last().filter(f).push(n - 1) } else { all.drop_last().filter(f) });
        if keys[n - 1] == g {
            assert(rows_of_key(keys, g, n).map_values(|r: int| v[r]) =~= rows_of_key(keys, g, n - 1).map_values(
                |r: int| v[r],
            ).push(v[n - 1]));
        }
    }
}

/// The group keys of the first `n` rows are the distinct keys of those
/// rows: no key is listed twice, every listed key is the key of some row,
/// and the key of every row is listed.
pub proof fn lemma_group_keys(keys: Seq<i64>, n: int)
    requires
        0 <= n <= keys.len(),
    ensures
        first_keys(keys, n).no_duplicates(),
        forall|a: int|
            #![trigger first_keys(keys, n)[a]]
            0 <= a < first_keys(keys, n).len() ==> exists|r: int| 0 <= r < n && #[trigger] keys[r] == first_keys(keys, n)[a],
        forall|r: int| 0 <= r < n ==> first_keys(keys, n).contains(#[trigger] keys[r]),
    decreases n,
{
    lemma_first_keys_distinct(keys, n);
    lemma_first_keys_len(keys, n);
    if n > 0 {
        lemma_group_keys(keys, n - 1);
        let p = first_keys(keys, n - 1);
        let q = first_keys(keys, n);
        assert forall|r: int| 0 <= r < n implies q.contains(#[trigger] keys[r]) by {
            if r < n - 1 {
                assert(p.contains(keys[r]));
                let i = choose|i: int| 0 <= i < p.len() && p[i] == keys[r];
                if !p.contains(keys[n - 1]) {
                    assert(q[i] == keys[r]);
                }
            } else if !p.contains(keys[n - 1]) {
                assert(q[p.len() as int] == keys[r]);
            }
        }
    }
}

} // verus!
