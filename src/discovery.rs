//! Discovery: file names to identities, and their order by timestamp.

use vstd::prelude::*;
use vstd::string::StrSliceExecFns;
use crate::error::MigrationError;
use crate::migration::{Migration, MigrationView, views_of, parses, parsed};

verus! {

broadcast use vstd::seq_lib::group_to_multiset_ensures;

/// Length of the script extension, `.cql`.
pub const EXTENSION_WIDTH: usize = 4;

/// A file name without its four-character extension.
pub open spec fn stem_of(file_name: Seq<char>) -> Seq<char> {
    if file_name.len() >= EXTENSION_WIDTH {
        file_name.subrange(0, file_name.len() - EXTENSION_WIDTH)
    } else {
        Seq::empty()
    }
}

/// Lexical order on character sequences, as `str` compares them.
pub open spec fn lex_le(a: Seq<char>, b: Seq<char>) -> bool
    decreases a.len(),
{
    if a.len() == 0 {
        true
    } else if b.len() == 0 {
        false
    } else if a[0] != b[0] {
        a[0] < b[0]
    } else {
        lex_le(a.drop_first(), b.drop_first())
    }
}

/// Each migration's timestamp is no later than the next one's.
pub open spec fn sorted_by_timestamp(s: Seq<MigrationView>) -> bool {
    forall|i: int| 0 <= i < s.len() - 1 ==> lex_le(#[trigger] s[i].timestamp, s[i + 1].timestamp)
}

/// Either of two sequences is lexically no greater than the other.
pub proof fn lemma_lex_total(a: Seq<char>, b: Seq<char>)
    ensures
        lex_le(a, b) || lex_le(b, a),
    decreases a.len(),
{
    if a.len() > 0 && b.len() > 0 && a[0] == b[0] {
        lemma_lex_total(a.drop_first(), b.drop_first());
    }
}

/// The migration named by a file of the migrations directory.
pub fn from_file_name(file_name: &str) -> (r: Result<Migration, MigrationError>)
    ensures
        parses(stem_of(file_name@)) <==> r is Ok,
        r matches Ok(m) ==> m@ == parsed(stem_of(file_name@)),
        r matches Err(e) ==> (e matches MigrationError::InvalidIdentityFormat { identifier }
            && identifier@ == stem_of(file_name@)),
{
    let n = file_name.unicode_len();
    let stem = if n >= EXTENSION_WIDTH {
        file_name.substring_char(0, n - EXTENSION_WIDTH)
    } else {
        file_name.substring_char(0, 0)
    };
    proof {
        if n < EXTENSION_WIDTH {
            assert(stem@ =~= Seq::<char>::empty());
        }
    }
    Migration::parse(stem)
}

/// Whether `a` is lexically no greater than `b`.
pub fn timestamp_le(a: &str, b: &str) -> (r: bool)
    ensures
        r == lex_le(a@, b@),
{
    let na = a.unicode_len();
    let nb = b.unicode_len();
    let mut i: usize = 0;
    assert(a@.subrange(0, na as int) =~= a@);
    assert(b@.subrange(0, nb as int) =~= b@);
    while i < na && i < nb && a.get_char(i) == b.get_char(i)
        invariant
            na == a@.len(),
            nb == b@.len(),
            i <= na,
            i <= nb,
            lex_le(a@, b@) == lex_le(a@.subrange(i as int, na as int), b@.subrange(i as int, nb as int)),
        decreases na - i,
    {
        proof {
            let sa = a@.subrange(i as int, na as int);
            let sb = b@.subrange(i as int, nb as int);
            assert(sa.drop_first() =~= a@.subrange(i + 1, na as int));
            assert(sb.drop_first() =~= b@.subrange(i + 1, nb as int));
        }
        i = i + 1;
    }
    if i == na {
        true
    } else if i == nb {
        false
    } else {
        a.get_char(i) < b.get_char(i)
    }
}

/// The migrations of `s` that carry timestamp `t`, in their order in `s`.
pub open spec fn stamped(s: Seq<MigrationView>, t: Seq<char>) -> Seq<MigrationView> {
    s.filter(|m: MigrationView| m.timestamp == t)
}

/// Every group of equal timestamps appears in `r` in the order it has in `s`.
pub open spec fn keeps_ties(r: Seq<MigrationView>, s: Seq<MigrationView>) -> bool {
    forall|t: Seq<char>| #[trigger] stamped(r, t) == stamped(s, t)
}

proof fn lemma_stamped_single(x: MigrationView, t: Seq<char>)
    ensures
        stamped(seq![x], t) == (if x.timestamp == t {
            seq![x]
        } else {
            Seq::<MigrationView>::empty()
        }),
{
    reveal_with_fuel(Seq::filter, 2);
    assert(seq![x].drop_last() =~= Seq::<MigrationView>::empty());
    assert(stamped(seq![x], t) =~= (if x.timestamp == t {
        seq![x]
    } else {
        Seq::<MigrationView>::empty()
    }));
}

/// Inserting `x` in front of a tail whose timestamps all differ from `x`'s
/// adds `x` last to its own group and leaves every other group as it was.
proof fn lemma_stamped_insert(s: Seq<MigrationView>, j: int, x: MigrationView, t: Seq<char>)
    requires
        0 <= j <= s.len(),
        forall|k: int| j <= k < s.len() ==> #[trigger] s[k].timestamp != x.timestamp,
    ensures
        stamped(s.insert(j, x), t) == (if x.timestamp == t {
            stamped(s, t).push(x)
        } else {
            stamped(s, t)
        }),
{
    let pred = |m: MigrationView| m.timestamp == t;
    let a = s.subrange(0, j);
    let b = s.subrange(j, s.len() as int);
    assert(s =~= a + b);
    assert(s.insert(j, x) =~= a + seq![x] + b);
    Seq::filter_distributes_over_add(a, b, pred);
    Seq::filter_distributes_over_add(a + seq![x], b, pred);
    Seq::filter_distributes_over_add(a, seq![x], pred);
    lemma_stamped_single(x, t);
    if x.timestamp == t {
        assert(b.all(|m: MigrationView| !pred(m))) by {
            assert forall|k: int| 0 <= k < b.len() implies !pred(#[trigger] b[k]) by {
                assert(b[k] == s[j + k]);
            }
        }
        b.lemma_all_neg_filter_empty(pred);
        assert(b.filter(pred) =~= Seq::<MigrationView>::empty());
        assert(stamped(s, t) =~= a.filter(pred));
    } else {
        assert(seq![x].filter(pred) =~= Seq::<MigrationView>::empty());
    }
    assert(stamped(s.insert(j, x), t) =~= (if x.timestamp == t {
        stamped(s, t).push(x)
    } else {
        stamped(s, t)
    }));
}

proof fn lemma_stamped_push(s: Seq<MigrationView>, x: MigrationView, t: Seq<char>)
    ensures
        stamped(s.push(x), t) == (if x.timestamp == t {
            stamped(s, t).push(x)
        } else {
            stamped(s, t)
        }),
{
    assert(s.push(x) =~= s.insert(s.len() as int, x));
    lemma_stamped_insert(s, s.len() as int, x, t);
}

/// Orders migrations by timestamp, keeping the order of equal timestamps.
pub fn sort_by_timestamp(migrations: Vec<Migration>) -> (r: Vec<Migration>)
    ensures
        sorted_by_timestamp(views_of(r@)),
        keeps_ties(views_of(r@), views_of(migrations@)),
        views_of(r@).to_multiset() == views_of(migrations@).to_multiset(),
{
    let mut input = migrations;
    let mut r: Vec<Migration> = Vec::new();
    let ghost all = views_of(input@);
    let total = input.len();
    let ghost n = total as nat;
    let mut done: usize = 0;
    assert(views_of(r@) =~= all.subrange(0, 0));
    while input.len() > 0
        invariant
            done <= total,
            n == total,
            n == all.len(),
            views_of(input@) == all.subrange(done as int, n as int),
            sorted_by_timestamp(views_of(r@)),
            keeps_ties(views_of(r@), all.subrange(0, done as int)),
            views_of(r@).to_multiset() == all.subrange(0, done as int).to_multiset(),
        decreases input.len(),
    {
        let ghost in0 = input@;
        let m = input.remove(0);
        proof {
            assert(views_of(in0).len() == in0.len());
            assert(done < n);
            assert(views_of(in0)[0] == all[done as int]);
            assert(input@ =~= in0.remove(0));
            assert forall|k: int| 0 <= k < input@.len() implies views_of(input@)[k] == all[done + 1 + k] by {
                assert(input@[k] == in0[k + 1]);
                assert(views_of(in0)[k + 1] == all[done + 1 + k]);
            }
            assert(views_of(input@) =~= all.subrange(done + 1, n as int));
        }
        let mut j: usize = r.len();
        while j > 0 && !timestamp_le(r[j - 1].timestamp.as_str(), m.timestamp.as_str())
            invariant
                j <= r.len(),
                sorted_by_timestamp(views_of(r@)),
                forall|k: int| j <= k < r.len() ==> !lex_le(#[trigger] r@[k].timestamp@, m.timestamp@),
            decreases j,
        {
            j = j - 1;
        }
        let ghost pre = r@;
        proof {
            if j < r.len() {
                lemma_lex_total(m.timestamp@, r@[j as int].timestamp@);
            }
        }
        r.insert(j, m);
        proof {
            let prefix = all.subrange(0, done as int);
            let prefix1 = all.subrange(0, done + 1);
            assert(prefix1 =~= prefix.push(m@));
            assert(r@ == pre.insert(j as int, m));
            assert(views_of(r@) =~= views_of(pre).insert(j as int, m@));
            assert(views_of(r@).to_multiset() == views_of(pre).to_multiset().insert(m@));
            assert(prefix1.to_multiset() == prefix.to_multiset().insert(m@));
            assert forall|k: int| j <= k < views_of(pre).len() implies #[trigger] views_of(
                pre,
            )[k].timestamp != m@.timestamp by {
                assert(!lex_le(pre[k].timestamp@, m.timestamp@));
                if pre[k].timestamp@ == m.timestamp@ {
                    lemma_lex_total(m.timestamp@, m.timestamp@);
                }
            }
            assert forall|t: Seq<char>| #[trigger] stamped(views_of(r@), t) == stamped(prefix1, t) by {
                lemma_stamped_insert(views_of(pre), j as int, m@, t);
                lemma_stamped_push(prefix, m@, t);
                assert(stamped(views_of(pre), t) == stamped(prefix, t));
            }
            assert forall|i: int| 0 <= i < r@.len() - 1 implies lex_le(#[trigger] views_of(r@)[i].timestamp, views_of(r@)[i + 1].timestamp) by {
                if i < j - 1 {
                    assert(r@[i] == pre[i] && r@[i + 1] == pre[i + 1]);
                } else if i == j - 1 {
                } else if i == j {
                } else {
                    assert(r@[i] == pre[i - 1] && r@[i + 1] == pre[i]);
                }
            }
        }
        done = done + 1;
    }
    assert(all.subrange(0, done as int) =~= all);
    r
}

/// The unloaded migration that a file of the migrations directory names.
pub open spec fn file_view(file_name: Seq<char>) -> MigrationView {
    parsed(stem_of(file_name))
}

/// The index of the first file name whose stem does not parse, if any.
pub open spec fn first_bad(names: Seq<String>, i: int) -> bool {
    &&& 0 <= i < names.len()
    &&& !parses(stem_of(names[i]@))
    &&& forall|k: int| 0 <= k < i ==> parses(stem_of(#[trigger] names[k]@))
}

/// The migrations that the files of the migrations directory name, ordered by
/// timestamp (equal timestamps keep the order of `file_names`). A single file
/// name that does not parse fails the whole listing.
pub fn list_all(file_names: &Vec<String>) -> (r: Result<Vec<Migration>, MigrationError>)
    ensures
        (forall|k: int| 0 <= k < file_names@.len() ==> parses(stem_of(#[trigger] file_names@[k]@)))
            <==> r is Ok,
        r matches Ok(v) ==> sorted_by_timestamp(views_of(v@)) && keeps_ties(
            views_of(v@),
            file_names@.map_values(|n: String| file_view(n@)),
        ) && views_of(v@).to_multiset() == file_names@.map_values(
            |n: String| file_view(n@),
        ).to_multiset(),
        r matches Err(e) ==> exists|i: int| first_bad(file_names@, i) && (e matches
            MigrationError::InvalidIdentityFormat { identifier } && identifier@ == stem_of(
                file_names@[i]@,
            )),
{
    let mut found: Vec<Migration> = Vec::new();
    let mut i: usize = 0;
    while i < file_names.len()
        invariant
            i <= file_names@.len(),
            forall|k: int| 0 <= k < i ==> parses(stem_of(#[trigger] file_names@[k]@)),
            views_of(found@) == file_names@.subrange(0, i as int).map_values(
                |n: String| file_view(n@),
            ),
        decreases file_names@.len() - i,
    {
        match from_file_name(file_names[i].as_str()) {
            Ok(m) => {
                let ghost pre = found@;
                found.push(m);
                proof {
                    assert(views_of(found@) =~= views_of(pre).push(m@));
                    assert(file_names@.subrange(0, i + 1).map_values(|n: String| file_view(n@))
                        =~= file_names@.subrange(0, i as int).map_values(
                        |n: String| file_view(n@),
                    ).push(file_view(file_names@[i as int]@)));
                }
            },
            Err(e) => {
                assert(first_bad(file_names@, i as int));
                return Err(e);
            },
        }
        i = i + 1;
    }
    assert(file_names@.subrange(0, i as int) =~= file_names@);
    Ok(sort_by_timestamp(found))
}

/// The single migration that an explicit identifier names, bypassing the
/// directory.
pub fn resolve_one(id: &str) -> (r: Result<Vec<Migration>, MigrationError>)
    ensures
        parses(id@) <==> r is Ok,
        r matches Ok(v) ==> views_of(v@) == seq![parsed(id@)],
        r matches Err(e) ==> (e matches MigrationError::InvalidIdentityFormat { identifier }
            && identifier@ == id@),
{
    match Migration::parse(id) {
        Ok(m) => {
            let mut v: Vec<Migration> = Vec::new();
            v.push(m);
            assert(views_of(v@) =~= seq![parsed(id@)]);
            Ok(v)
        },
        Err(e) => Err(e),
    }
}

/// Lexical order is antisymmetric.
pub proof fn lemma_lex_antisymmetric(a: Seq<char>, b: Seq<char>)
    requires
        lex_le(a, b),
        lex_le(b, a),
    ensures
        a == b,
    decreases a.len(),
{
    if a.len() > 0 && b.len() > 0 {
        lemma_lex_antisymmetric(a.drop_first(), b.drop_first());
        assert(a =~= seq![a[0]] + a.drop_first());
        assert(b =~= seq![b[0]] + b.drop_first());
    } else {
        assert(a =~= b);
    }
}

/// Lexical order is transitive.
pub proof fn lemma_lex_transitive(a: Seq<char>, b: Seq<char>, c: Seq<char>)
    requires
        lex_le(a, b),
        lex_le(b, c),
    ensures
        lex_le(a, c),
    decreases a.len(),
{
    if a.len() > 0 && b.len() > 0 && c.len() > 0 && a[0] == b[0] && b[0] == c[0] {
        lemma_lex_transitive(a.drop_first(), b.drop_first(), c.drop_first());
    }
}

/// In a sequence ordered by timestamp, every timestamp is no later than any
/// that comes after it.
pub proof fn lemma_sorted_pairs(s: Seq<MigrationView>, i: int, j: int)
    requires
        sorted_by_timestamp(s),
        0 <= i <= j < s.len(),
    ensures
        lex_le(s[i].timestamp, s[j].timestamp),
    decreases j - i,
{
    if i == j {
        lemma_lex_total(s[i].timestamp, s[i].timestamp);
    } else {
        lemma_sorted_pairs(s, i + 1, j);
        assert(lex_le(s[i].timestamp, s[i + 1].timestamp));
        lemma_lex_transitive(s[i].timestamp, s[i + 1].timestamp, s[j].timestamp);
    }
}

/// No two migrations of `s` share a timestamp.
pub open spec fn distinct_timestamps(s: Seq<MigrationView>) -> bool {
    forall|i: int, j: int|
        0 <= i < s.len() && 0 <= j < s.len() && i != j ==> #[trigger] s[i].timestamp
            != #[trigger] s[j].timestamp
}

/// The order by timestamp does not depend on the order in which migrations
/// were found: two orderings of the same migrations, whose timestamps are
/// pairwise distinct, are one and the same sequence.
pub proof fn lemma_order_unique(a: Seq<MigrationView>, b: Seq<MigrationView>)
    requires
        sorted_by_timestamp(a),
        sorted_by_timestamp(b),
        a.to_multiset() == b.to_multiset(),
        distinct_timestamps(a),
    ensures
        a == b,
    decreases a.len(),
{
    if a.len() == 0 {
        assert(b.to_multiset().len() == 0);
        assert(b =~= a);
    } else {
        assert(b.len() == a.len()) by {
            assert(a.to_multiset().len() == a.len());
            assert(b.to_multiset().len() == b.len());
        }
        assert(a.contains(a[0]));
        assert(a.to_multiset().count(a[0]) > 0);
        assert(b.to_multiset().count(a[0]) > 0);
        assert(b.contains(a[0]));
        let k = choose|k: int| 0 <= k < b.len() && b[k] == a[0];
        assert(b.contains(b[0]));
        assert(b.to_multiset().count(b[0]) > 0);
        assert(a.to_multiset().count(b[0]) > 0);
        assert(a.contains(b[0]));
        let j = choose|j: int| 0 <= j < a.len() && a[j] == b[0];
        lemma_sorted_pairs(b, 0, k);
        lemma_sorted_pairs(a, 0, j);
        lemma_lex_antisymmetric(a[0].timestamp, b[0].timestamp);
        assert(j == 0);
        assert(a[0] == b[0]);
        let a1 = a.drop_first();
        let b1 = b.drop_first();
        assert(a1 =~= a.remove(0));
        assert(b1 =~= b.remove(0));
        assert(a1.to_multiset() == a.to_multiset().remove(a[0]));
        assert(b1.to_multiset() == b.to_multiset().remove(b[0]));
        assert forall|i: int| 0 <= i < a1.len() - 1 implies lex_le(
            #[trigger] a1[i].timestamp,
            a1[i + 1].timestamp,
        ) by {
            assert(a1[i] == a[i + 1]);
            assert(lex_le(a[i + 1].timestamp, a[i + 2].timestamp));
        }
        assert forall|i: int| 0 <= i < b1.len() - 1 implies lex_le(
            #[trigger] b1[i].timestamp,
            b1[i + 1].timestamp,
        ) by {
            assert(b1[i] == b[i + 1]);
            assert(lex_le(b[i + 1].timestamp, b[i + 2].timestamp));
        }
        assert forall|x: int, y: int|
            0 <= x < a1.len() && 0 <= y < a1.len() && x != y implies #[trigger] a1[x].timestamp
            != #[trigger] a1[y].timestamp by {
            assert(a[x + 1].timestamp != a[y + 1].timestamp);
        }
        lemma_order_unique(a1, b1);
        assert(a =~= b) by {
            assert forall|i: int| 0 <= i < a.len() implies a[i] == b[i] by {
                if i > 0 {
                    assert(a[i] == a1[i - 1]);
                    assert(b[i] == b1[i - 1]);
                }
            }
        }
    }
}

} // verus!
