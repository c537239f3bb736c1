use vstd::prelude::*;
use vstd::relations::sorted_by;
use vstd::rwlock::RwLock;

use crate::order::{pair_le_fn, sort_pairs};
use crate::resolver::DisplaySecret;

verus! {

/// An externally pushed secret-like record. `received_at` is stamped by the
/// store itself on every insertion; whatever a client supplied is discarded.
pub struct WebhookRecord {
    pub name: String,
    pub fields: Vec<(String, String)>,
    pub received_at: String,
}

/// The view-level content of a record: its fields and its stamp.
pub open spec fn record_data(r: WebhookRecord) -> (Seq<(Seq<char>, Seq<char>)>, Seq<char>) {
    (r.fields.deep_view(), r.received_at@)
}

/// No two records share a name.
pub open spec fn unique_names(s: Seq<WebhookRecord>) -> bool {
    forall|i: int, j: int|
        0 <= i < s.len() && 0 <= j < s.len() && i != j ==> (#[trigger] s[i]).name@ != (
        #[trigger] s[j]).name@
}

/// The first record under a name, as view-level data.
pub open spec fn store_lookup(s: Seq<WebhookRecord>, name: Seq<char>) -> Option<
    (Seq<(Seq<char>, Seq<char>)>, Seq<char>),
>
    decreases s.len(),
{
    if s.len() == 0 {
        None
    } else if s[0].name@ == name {
        Some(record_data(s[0]))
    } else {
        store_lookup(s.drop_first(), name)
    }
}

/// What one insertion promises: the record under `name` is exactly the new
/// fields and stamp — full replacement, nothing of an earlier record under
/// that name survives — every other name reads as before, and names stay
/// unique.
pub open spec fn put_post(
    pre: Seq<WebhookRecord>,
    post: Seq<WebhookRecord>,
    name: Seq<char>,
    fields: Seq<(Seq<char>, Seq<char>)>,
    stamp: Seq<char>,
) -> bool {
    &&& unique_names(post)
    &&& store_lookup(post, name) == Some((fields, stamp))
    &&& forall|m: Seq<char>|
        m != name ==> #[trigger] store_lookup(post, m) == store_lookup(pre, m)
}

proof fn lemma_store_lookup_at(s: Seq<WebhookRecord>, i: int)
    requires
        unique_names(s),
        0 <= i < s.len(),
    ensures
        store_lookup(s, s[i].name@) == Some(record_data(s[i])),
    decreases s.len(),
{
    if i > 0 {
        assert(s[0].name@ != s[i].name@);
        assert(unique_names(s.drop_first())) by {
            assert(forall|p: int, q: int|
                0 <= p < s.drop_first().len() && 0 <= q < s.drop_first().len() && p != q
                    ==> (#[trigger] s.drop_first()[p]).name@ != (#[trigger] s.drop_first()[q]).name@)
                by {
                assert(forall|p: int|
                    0 <= p < s.drop_first().len() ==> #[trigger] s.drop_first()[p] == s[p + 1]);
            }
        }
        assert(s.drop_first()[i - 1] == s[i]);
        lemma_store_lookup_at(s.drop_first(), i - 1);
    }
}

proof fn lemma_store_lookup_none(s: Seq<WebhookRecord>, name: Seq<char>)
    requires
        forall|k: int| 0 <= k < s.len() ==> (#[trigger] s[k]).name@ != name,
    ensures
        store_lookup(s, name) is None,
    decreases s.len(),
{
    if s.len() > 0 {
        assert(forall|k: int|
            0 <= k < s.drop_first().len() ==> #[trigger] s.drop_first()[k] == s[k + 1]);
        lemma_store_lookup_none(s.drop_first(), name);
    }
}

proof fn lemma_store_lookup_update_other(
    pre: Seq<WebhookRecord>,
    i: int,
    rec: WebhookRecord,
    m: Seq<char>,
)
    requires
        0 <= i < pre.len(),
        pre[i].name@ == rec.name@,
        m != rec.name@,
    ensures
        store_lookup(pre.update(i, rec), m) == store_lookup(pre, m),
    decreases pre.len(),
{
    let post = pre.update(i, rec);
    if i == 0 {
        assert(post[0] == rec);
        assert(post.drop_first() =~= pre.drop_first());
    } else {
        assert(post[0] == pre[0]);
        if pre[0].name@ != m {
            assert(post.drop_first() =~= pre.drop_first().update(i - 1, rec));
            assert(pre.drop_first()[i - 1] == pre[i]);
            lemma_store_lookup_update_other(pre.drop_first(), i - 1, rec, m);
        }
    }
}

proof fn lemma_store_lookup_push_other(pre: Seq<WebhookRecord>, rec: WebhookRecord, m: Seq<char>)
    requires
        m != rec.name@,
    ensures
        store_lookup(pre.push(rec), m) == store_lookup(pre, m),
    decreases pre.len(),
{
    let post = pre.push(rec);
    if pre.len() == 0 {
        assert(post[0] == rec);
        assert(post.drop_first() =~= Seq::<WebhookRecord>::empty());
        assert(store_lookup(post.drop_first(), m) is None);
        assert(store_lookup(pre, m) is None);
    } else {
        assert(post[0] == pre[0]);
        if pre[0].name@ != m {
            assert(post.drop_first() =~= pre.drop_first().push(rec));
            lemma_store_lookup_push_other(pre.drop_first(), rec, m);
        }
    }
}

/// Insert or fully replace the record under `name`. This is the store's
/// whole functional behaviour, on the plain record list.
#[verifier::loop_isolation(false)]
pub fn put_record(
    records: &mut Vec<WebhookRecord>,
    name: String,
    fields: Vec<(String, String)>,
    stamp: String,
)
    requires
        unique_names(old(records)@),
    ensures
        put_post(old(records)@, final(records)@, name@, fields.deep_view(), stamp@),
        forall|i: int|
            0 <= i < final(records)@.len() ==> (#[trigger] final(records)@[i]).received_at@
                == stamp@ || old(records)@.contains(final(records)@[i]),
{
    let ghost pre = records@;
    let ghost fd = fields.deep_view();
    let ghost sd = stamp@;
    let rec = WebhookRecord { name, fields, received_at: stamp };
    let ghost rn = rec.name@;
    proof {
        assert(record_data(rec) == (fd, sd));
    }
    let mut i: usize = 0;
    while i < records.len()
        invariant
            i <= records@.len(),
            records@ == pre,
            unique_names(pre),
            rn == rec.name@,
            forall|k: int| 0 <= k < i ==> (#[trigger] pre[k]).name@ != rn,
        decreases records@.len() - i,
    {
        if records[i].name == rec.name {
            let ghost idx = i as int;
            records.set(i, rec);
            proof {
                assert(records@ == pre.update(idx, rec));
                assert(unique_names(records@)) by {
                    assert(forall|k: int|
                        0 <= k < records@.len() && k != idx ==> #[trigger] records@[k] == pre[k]);
                    assert(records@[idx].name@ == pre[idx].name@);
                }
                lemma_store_lookup_at(records@, idx);
                assert forall|m: Seq<char>| m != rn implies #[trigger] store_lookup(records@, m)
                    == store_lookup(pre, m) by {
                    lemma_store_lookup_update_other(pre, idx, rec, m);
                }
                assert forall|k: int|
                    0 <= k < records@.len() implies (#[trigger] records@[k]).received_at@ == sd
                    || pre.contains(records@[k]) by {
                    if k != idx {
                        assert(records@[k] == pre[k]);
                        assert(pre.contains(records@[k]));
                    }
                }
            }
            return ;
        }
        i += 1;
    }
    proof {
        assert(forall|k: int| 0 <= k < pre.len() ==> (#[trigger] pre[k]).name@ != rn);
    }
    records.push(rec);
    proof {
        assert(records@ == pre.push(rec));
        assert(unique_names(records@)) by {
            assert(forall|k: int| 0 <= k < pre.len() ==> #[trigger] records@[k] == pre[k]);
            assert(records@[pre.len() as int] == rec);
        }
        lemma_store_lookup_at(records@, pre.len() as int);
        assert forall|m: Seq<char>| m != rn implies #[trigger] store_lookup(records@, m)
            == store_lookup(pre, m) by {
            lemma_store_lookup_push_other(pre, rec, m);
        }
        assert forall|k: int|
            0 <= k < records@.len() implies (#[trigger] records@[k]).received_at@ == sd
            || pre.contains(records@[k]) by {
            if k < pre.len() {
                assert(records@[k] == pre[k]);
                assert(pre.contains(records@[k]));
            }
        }
    }
}

/// Two insertions under one name: the second wholly wins — the store holds
/// its fields and stamp, with nothing left of the first — and every other
/// name reads as before either insertion.
pub proof fn lemma_put_last_write_wins(
    s0: Seq<WebhookRecord>,
    s1: Seq<WebhookRecord>,
    s2: Seq<WebhookRecord>,
    name: Seq<char>,
    fields1: Seq<(Seq<char>, Seq<char>)>,
    stamp1: Seq<char>,
    fields2: Seq<(Seq<char>, Seq<char>)>,
    stamp2: Seq<char>,
)
    requires
        put_post(s0, s1, name, fields1, stamp1),
        put_post(s1, s2, name, fields2, stamp2),
    ensures
        store_lookup(s2, name) == Some((fields2, stamp2)),
        forall|m: Seq<char>| m != name ==> #[trigger] store_lookup(s2, m) == store_lookup(s0, m),
{
}

/// The shape of a server-assigned stamp, as far as a contract can carry it:
/// `YYYY-MM-DD HH:MM:SS UTC` is at least 23 characters — the year keeps at
/// least four digits — and ends in the literal ` UTC`.
pub open spec fn utc_stamp_shaped(t: Seq<char>) -> bool {
    t.len() >= 23 && t.subrange(t.len() - 4, t.len() as int) == " UTC"@
}

/// Every record carries a server-shaped stamp.
pub open spec fn stamps_shaped(s: Seq<WebhookRecord>) -> bool {
    forall|i: int| 0 <= i < s.len() ==> utc_stamp_shaped((#[trigger] s[i]).received_at@)
}

spec fn store_pred_fn() -> spec_fn(Vec<WebhookRecord>) -> bool {
    |v: Vec<WebhookRecord>| unique_names(v@) && stamps_shaped(v@)
}

/// Relies on `chrono::Utc::now` and chrono's formatter: the current time in
/// the fixed `YYYY-MM-DD HH:MM:SS UTC` shape. Which second the clock reads
/// cannot be promised; the shape can — the format writes a year of at least
/// four digits, five two-digit fields, and its literal separators, ending
/// in ` UTC`, so the stamp is at least 23 characters long and ends in ` UTC`.
#[verifier::external_body]
fn now_stamp_utc() -> (r: String)
    ensures
        utc_stamp_shaped(r@),
{
    chrono::Utc::now().format("%Y-%m-%d %H:%M:%S UTC").to_string()
}

/// The process-wide registry of webhook records. Many listing requests read
/// a consistent snapshot at once; one ingestion request at a time holds the
/// write side for the duration of the map change. It is built only when
/// ingestion is enabled, owns no deletion, and lives for the process alone.
pub struct WebhookStore {
    lock: RwLock<Vec<WebhookRecord>, spec_fn(Vec<WebhookRecord>) -> bool>,
}

impl WebhookStore {
    pub closed spec fn wf(&self) -> bool {
        self.lock.pred() == store_pred_fn()
    }

    /// An empty store.
    pub fn new() -> (s: Self)
        ensures
            s.wf(),
    {
        let v: Vec<WebhookRecord> = Vec::new();
        proof {
            assert(unique_names(v@));
            assert(stamps_shaped(v@));
            assert(store_pred_fn()(v));
        }
        let lock = RwLock::new(v, Ghost(store_pred_fn()));
        WebhookStore { lock }
    }

    /// Insert or fully replace the record under `name`, stamping it with the
    /// server's own clock; a client-supplied stamp never survives — `put`
    /// takes none, and every stored stamp satisfies `utc_stamp_shaped` by
    /// the store invariant. Under shared access no more can be promised
    /// here: the functional contract of one insertion is `put_post`, on
    /// `put_record`.
    pub fn put(&self, name: String, fields: Vec<(String, String)>)
        requires
            self.wf(),
    {
        let stamp = now_stamp_utc();
        let (mut v, handle) = self.lock.acquire_write();
        proof {
            assert(store_pred_fn()(v));
        }
        let ghost pre = v@;
        put_record(&mut v, name, fields, stamp);
        proof {
            assert(stamps_shaped(v@)) by {
                assert forall|i: int|
                    0 <= i < v@.len() implies utc_stamp_shaped(
                    (#[trigger] v@[i]).received_at@,
                ) by {
                    if v@[i].received_at@ != stamp@ {
                        assert(pre.contains(v@[i]));
                        let j = choose|j: int| 0 <= j < pre.len() && pre[j] == v@[i];
                        assert(utc_stamp_shaped(pre[j].received_at@));
                    }
                }
            }
            assert(store_pred_fn()(v));
        }
        handle.release_write(v);
    }

    /// All current records, one consistent copy; the order carries no
    /// meaning.
    pub fn snapshot(&self) -> (r: Vec<WebhookRecord>)
        requires
            self.wf(),
        ensures
            unique_names(r@),
            stamps_shaped(r@),
    {
        let handle = self.lock.acquire_read();
        let v = handle.borrow();
        proof {
            assert(store_pred_fn()(*v));
        }
        let r = clone_records(v);
        proof {
            assert(stamps_shaped(r@)) by {
                assert forall|i: int|
                    0 <= i < r@.len() implies utc_stamp_shaped(
                    (#[trigger] r@[i]).received_at@,
                ) by {
                    assert(record_data(r@[i]) == record_data(v@[i]));
                    assert(utc_stamp_shaped(v@[i].received_at@));
                }
            }
        }
        handle.release_read();
        r
    }
}

/// The config-time decision on ingestion: with the feature off no store
/// exists at all, and the write path has nothing to reach.
pub fn webhook_store_for(enabled: bool) -> (r: Option<WebhookStore>)
    ensures
        enabled <==> r is Some,
        r matches Some(s) ==> s.wf(),
{
    if enabled {
        Some(WebhookStore::new())
    } else {
        None
    }
}

fn clone_pairs(fields: &Vec<(String, String)>) -> (r: Vec<(String, String)>)
    ensures
        r.deep_view() == fields.deep_view(),
{
    let mut r: Vec<(String, String)> = Vec::new();
    let mut i: usize = 0;
    while i < fields.len()
        invariant
            i <= fields@.len(),
            r.deep_view() =~= fields.deep_view().subrange(0, i as int),
        decreases fields@.len() - i,
    {
        let p = &fields[i];
        let ghost before = r.deep_view();
        r.push((p.0.clone(), p.1.clone()));
        proof {
            assert(fields.deep_view()[i as int] == fields@[i as int].deep_view());
            assert(r.deep_view() =~= before.push(fields.deep_view()[i as int]));
            assert(r.deep_view() =~= fields.deep_view().subrange(0, i as int + 1));
        }
        i += 1;
    }
    proof {
        assert(r.deep_view() =~= fields.deep_view());
    }
    r
}

fn clone_records(v: &Vec<WebhookRecord>) -> (r: Vec<WebhookRecord>)
    requires
        unique_names(v@),
    ensures
        unique_names(r@),
        r@.len() == v@.len(),
        forall|i: int|
            0 <= i < r@.len() ==> (#[trigger] r@[i]).name@ == v@[i].name@ && record_data(r@[i])
                == record_data(v@[i]),
{
    let mut r: Vec<WebhookRecord> = Vec::new();
    let mut i: usize = 0;
    while i < v.len()
        invariant
            i <= v@.len(),
            r@.len() == i,
            forall|k: int|
                0 <= k < i ==> (#[trigger] r@[k]).name@ == v@[k].name@ && record_data(r@[k])
                    == record_data(v@[k]),
        decreases v@.len() - i,
    {
        let rec = &v[i];
        r.push(
            WebhookRecord {
                name: rec.name.clone(),
                fields: clone_pairs(&rec.fields),
                received_at: rec.received_at.clone(),
            },
        );
        i += 1;
    }
    proof {
        assert forall|p: int, q: int|
            0 <= p < r@.len() && 0 <= q < r@.len() && p != q implies (#[trigger] r@[p]).name@ != (
        #[trigger] r@[q]).name@ by {
            assert(v@[p].name@ != v@[q].name@);
        }
    }
    r
}

/// The listing rows for the webhook records: one per record, fields sorted,
/// the receipt stamp shown.
pub fn webhook_displays(records: &Vec<WebhookRecord>) -> (r: Vec<DisplaySecret>)
    ensures
        r@.len() == records@.len(),
        forall|i: int|
            0 <= i < r@.len() ==> {
                &&& (#[trigger] r@[i]).name@ == records@[i].name@
                &&& (r@[i].received_at matches Some(st) && st@ == records@[i].received_at@)
                &&& sorted_by(r@[i].fields.deep_view(), pair_le_fn())
                &&& r@[i].fields.deep_view().to_multiset() == records@[i].fields.deep_view()
                    .to_multiset()
            },
{
    let mut r: Vec<DisplaySecret> = Vec::new();
    let mut i: usize = 0;
    while i < records.len()
        invariant
            i <= records@.len(),
            r@.len() == i,
            forall|k: int|
                0 <= k < i ==> {
                    &&& (#[trigger] r@[k]).name@ == records@[k].name@
                    &&& (r@[k].received_at matches Some(st) && st@ == records@[k].received_at@)
                    &&& sorted_by(r@[k].fields.deep_view(), pair_le_fn())
                    &&& r@[k].fields.deep_view().to_multiset() == records@[k].fields.deep_view()
                        .to_multiset()
                },
        decreases records@.len() - i,
    {
        let rec = &records[i];
        r.push(
            DisplaySecret {
                name: rec.name.clone(),
                fields: sort_pairs(&rec.fields),
                received_at: Some(rec.received_at.clone()),
            },
        );
        i += 1;
    }
    r
}

/// The whole listing: the cluster rows first, then one row per webhook
/// record, each of those with sorted fields and its receipt stamp.
pub fn build_listing(cluster: Vec<DisplaySecret>, webhook: &Vec<WebhookRecord>) -> (r: Vec<
    DisplaySecret,
>)
    ensures
        r@.len() == cluster@.len() + webhook@.len(),
        forall|i: int| 0 <= i < cluster@.len() ==> #[trigger] r@[i] == cluster@[i],
        forall|i: int|
            cluster@.len() <= i < r@.len() ==> {
                let w = i - cluster@.len();
                &&& (#[trigger] r@[i]).name@ == webhook@[w].name@
                &&& (r@[i].received_at matches Some(st) && st@ == webhook@[w].received_at@)
                &&& sorted_by(r@[i].fields.deep_view(), pair_le_fn())
                &&& r@[i].fields.deep_view().to_multiset() == webhook@[w].fields.deep_view()
                    .to_multiset()
            },
{
    let mut r = cluster;
    let mut extra = webhook_displays(webhook);
    let ghost base = r@;
    let ghost added = extra@;
    r.append(&mut extra);
    proof {
        assert(r@ == base + added);
        assert(forall|i: int| 0 <= i < base.len() ==> #[trigger] r@[i] == base[i]);
        assert(forall|w: int| 0 <= w < added.len() ==> #[trigger] r@[base.len() + w] == added[w]);
    }
    r
}

} // verus!
