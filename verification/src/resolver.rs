use vstd::prelude::*;
use vstd::relations::sorted_by;

use crate::order::{
    keys_unique, lemma_listing_strict_when_keys_unique, pair_le_fn, sort_pairs,
    strictly_ascending_keys,
};
use vstd::string::StringExecFns;

verus! {

/// What `String::from_utf8_lossy` makes of a byte sequence. The replacement
/// rules for ill-formed sequences are a fixed function of the bytes alone, so
/// they only get a name here; on well-formed input the result is pinned down
/// exactly below.
pub uninterp spec fn utf8_lossy_of(bytes: Seq<u8>) -> Seq<char>;

/// Relies on std's `String::from_utf8_lossy`: its documentation promises that
/// valid UTF-8 input decodes without replacement, which `vstd`'s UTF-8 model
/// states exactly; all other input is some fixed function of the bytes.
#[verifier::external_body]
fn decode_utf8_lossy(bytes: &Vec<u8>) -> (r: String)
    ensures
        r@ == utf8_lossy_of(bytes@),
        vstd::utf8::valid_utf8(bytes@) ==> r@ == vstd::utf8::decode_utf8(bytes@),
{
    String::from_utf8_lossy(bytes).into_owned()
}

/// What a binary field value reads as: the lossy decoding of its bytes,
/// and exactly their UTF-8 decoding when they are well formed.
pub fn decoded_value(bytes: &Vec<u8>) -> (r: String)
    ensures
        r@ == utf8_lossy_of(bytes@),
        vstd::utf8::valid_utf8(bytes@) ==> r@ == vstd::utf8::decode_utf8(bytes@),
{
    decode_utf8_lossy(bytes)
}

/// A secret record as the cluster store hands it out: at most one of a
/// binary-valued and a string-valued field map. Keys within one map are
/// unique in the store itself; nothing here depends on that.
pub struct SecretRecord {
    pub binary_fields: Option<Vec<(String, Vec<u8>)>>,
    pub string_fields: Option<Vec<(String, String)>>,
}

/// A secret as the listing page shows it.
pub struct DisplaySecret {
    pub name: String,
    pub fields: Vec<(String, String)>,
    pub received_at: Option<String>,
}

/// First value in an association list under the given key.
pub open spec fn assoc<V>(s: Seq<(Seq<char>, V)>, key: Seq<char>) -> Option<V>
    decreases s.len(),
{
    if s.len() == 0 {
        None
    } else if s[0].0 == key {
        Some(s[0].1)
    } else {
        assoc(s.drop_first(), key)
    }
}

pub open spec fn lossy_pair(p: (Seq<char>, Seq<u8>)) -> (Seq<char>, Seq<char>) {
    (p.0, utf8_lossy_of(p.1))
}

pub open spec fn lossy_map(s: Seq<(Seq<char>, Seq<u8>)>) -> Seq<(Seq<char>, Seq<char>)> {
    s.map_values(|p: (Seq<char>, Seq<u8>)| lossy_pair(p))
}

/// The unsorted pairs the list projection shows: the binary map exclusively
/// when it is present, the string map only as a fallback, never both.
pub open spec fn listed_pairs(rec: SecretRecord) -> Seq<(Seq<char>, Seq<char>)> {
    match rec.binary_fields {
        Some(b) => lossy_map(b.deep_view()),
        None => match rec.string_fields {
            Some(s) => s.deep_view(),
            None => Seq::empty(),
        },
    }
}

/// The point lookup: the binary map is tried first, and independently of
/// whether it was present at all, the string map is tried for the same key.
pub open spec fn lookup_spec(rec: SecretRecord, field: Seq<char>) -> Option<Seq<char>> {
    let from_binary = match rec.binary_fields {
        Some(b) => assoc(b.deep_view(), field),
        None => None,
    };
    match from_binary {
        Some(bytes) => Some(utf8_lossy_of(bytes)),
        None => match rec.string_fields {
            Some(s) => assoc(s.deep_view(), field),
            None => None,
        },
    }
}

fn assoc_bytes<'a>(s: &'a Vec<(String, Vec<u8>)>, field: &str) -> (r: Option<&'a Vec<u8>>)
    ensures
        match r {
            Some(v) => assoc(s.deep_view(), field@) == Some(v.deep_view()),
            None => assoc(s.deep_view(), field@) is None,
        },
{
    let key = field.to_owned();
    let mut i: usize = 0;
    proof {
        assert(s.deep_view().skip(0) =~= s.deep_view());
    }
    loop
        invariant
            i <= s.len(),
            s.deep_view().len() == s.len(),
            key@ == field@,
            assoc(s.deep_view(), field@) == assoc(s.deep_view().skip(i as int), field@),
        decreases s.len() - i,
    {
        if i == s.len() {
            proof {
                assert(s.deep_view().skip(i as int).len() == 0);
            }
            return None;
        }
        proof {
            assert(s.deep_view().skip(i as int)[0] == s.deep_view()[i as int]);
            assert(s.deep_view()[i as int] == s@[i as int].deep_view());
        }
        if s[i].0 == key {
            return Some(&s[i].1);
        }
        proof {
            assert(s.deep_view().skip(i as int).drop_first() =~= s.deep_view().skip(i as int + 1));
        }
        i += 1;
    }
}

fn assoc_str<'a>(s: &'a Vec<(String, String)>, field: &str) -> (r: Option<&'a String>)
    ensures
        match r {
            Some(v) => assoc(s.deep_view(), field@) == Some(v@),
            None => assoc(s.deep_view(), field@) is None,
        },
{
    let key = field.to_owned();
    let mut i: usize = 0;
    proof {
        assert(s.deep_view().skip(0) =~= s.deep_view());
    }
    loop
        invariant
            i <= s.len(),
            s.deep_view().len() == s.len(),
            key@ == field@,
            assoc(s.deep_view(), field@) == assoc(s.deep_view().skip(i as int), field@),
        decreases s.len() - i,
    {
        if i == s.len() {
            proof {
                assert(s.deep_view().skip(i as int).len() == 0);
            }
            return None;
        }
        proof {
            assert(s.deep_view().skip(i as int)[0] == s.deep_view()[i as int]);
            assert(s.deep_view()[i as int] == s@[i as int].deep_view());
        }
        if s[i].0 == key {
            return Some(&s[i].1);
        }
        proof {
            assert(s.deep_view().skip(i as int).drop_first() =~= s.deep_view().skip(i as int + 1));
        }
        i += 1;
    }
}

/// The list projection: the pairs of `listed_pairs`, sorted ascending by key
/// (and by value between equal keys, which makes the result unique).
pub fn list_fields(rec: &SecretRecord) -> (r: Vec<(String, String)>)
    ensures
        sorted_by(r.deep_view(), pair_le_fn()),
        r.deep_view().to_multiset() == listed_pairs(*rec).to_multiset(),
{
    let mut pairs: Vec<(String, String)> = Vec::new();
    if let Some(b) = &rec.binary_fields {
        let mut i: usize = 0;
        proof {
            assert(pairs.deep_view() =~= lossy_map(b.deep_view().subrange(0, 0)));
        }
        while i < b.len()
            invariant
                i <= b.len(),
                b.deep_view().len() == b.len(),
                pairs.deep_view() == lossy_map(b.deep_view().subrange(0, i as int)),
            decreases b.len() - i,
        {
            let p = &b[i];
            let decoded = decode_utf8_lossy(&p.1);
            let ghost before = pairs.deep_view();
            pairs.push((p.0.clone(), decoded));
            proof {
                assert(b.deep_view()[i as int] == b@[i as int].deep_view());
                assert(b@[i as int].1.deep_view() =~= b@[i as int].1@);
                assert(pairs.deep_view() =~= before.push(lossy_pair(b.deep_view()[i as int])));
                assert(pairs.deep_view() =~= lossy_map(
                    b.deep_view().subrange(0, i as int + 1),
                ));
            }
            i += 1;
        }
        proof {
            assert(b.deep_view().subrange(0, b.len() as int) =~= b.deep_view());
        }
    } else if let Some(s) = &rec.string_fields {
        let mut i: usize = 0;
        proof {
            assert(pairs.deep_view() =~= s.deep_view().subrange(0, 0));
        }
        while i < s.len()
            invariant
                i <= s.len(),
                s.deep_view().len() == s.len(),
                pairs.deep_view() == s.deep_view().subrange(0, i as int),
            decreases s.len() - i,
        {
            let p = &s[i];
            let ghost before = pairs.deep_view();
            pairs.push((p.0.clone(), p.1.clone()));
            proof {
                assert(s.deep_view()[i as int] == s@[i as int].deep_view());
                assert(pairs.deep_view() =~= before.push(s.deep_view()[i as int]));
                assert(pairs.deep_view() =~= s.deep_view().subrange(0, i as int + 1));
            }
            i += 1;
        }
        proof {
            assert(s.deep_view().subrange(0, s.len() as int) =~= s.deep_view());
        }
    } else {
        proof {
            assert(pairs.deep_view() =~= Seq::<(Seq<char>, Seq<char>)>::empty());
        }
    }
    sort_pairs(&pairs)
}

/// The point lookup on a fetched record.
pub fn lookup_field(rec: &SecretRecord, field: &str) -> (r: Option<String>)
    ensures
        match r {
            Some(v) => lookup_spec(*rec, field@) == Some(v@),
            None => lookup_spec(*rec, field@) is None,
        },
{
    if let Some(b) = &rec.binary_fields {
        if let Some(v) = assoc_bytes(b, field) {
            proof {
                assert(v.deep_view() =~= v@);
            }
            return Some(decode_utf8_lossy(v));
        }
    }
    if let Some(s) = &rec.string_fields {
        if let Some(v) = assoc_str(s, field) {
            return Some(v.clone());
        }
    }
    None
}

/// The single synthetic pair a failed fetch contributes to the listing.
pub fn error_fields(msg: &str) -> (r: Vec<(String, String)>)
    ensures
        r.deep_view() == seq![(("error"@), ("Failed to read: "@ + msg@))],
{
    let mut text = "Failed to read: ".to_owned();
    text.append(msg);
    let mut r: Vec<(String, String)> = Vec::new();
    r.push(("error".to_owned(), text));
    proof {
        assert(r.deep_view() =~= seq![(("error"@), ("Failed to read: "@ + msg@))]);
    }
    r
}

/// One secret of the listing page: the sorted projection of a fetched
/// record, or the synthetic error pair when the fetch failed. A failure
/// never escapes to the caller, so sibling secrets are unaffected.
pub fn display_of_result(name: String, fetched: Result<SecretRecord, String>) -> (d: DisplaySecret)
    ensures
        d.name@ == name@,
        d.received_at is None,
        match fetched {
            Ok(rec) => sorted_by(d.fields.deep_view(), pair_le_fn())
                && d.fields.deep_view().to_multiset() == listed_pairs(rec).to_multiset(),
            Err(msg) => d.fields.deep_view() == seq![(("error"@), ("Failed to read: "@ + msg@))],
        },
{
    match fetched {
        Ok(rec) => DisplaySecret { name, fields: list_fields(&rec), received_at: None },
        Err(msg) => DisplaySecret { name, fields: error_fields(msg.as_str()), received_at: None },
    }
}

/// The cluster half of the listing: one row per configured name, in the
/// order given, each the display of its own fetch outcome. A failed fetch
/// yields its error row and leaves the other rows untouched.
pub fn cluster_displays(fetched: Vec<(String, Result<SecretRecord, String>)>) -> (r: Vec<
    DisplaySecret,
>)
    ensures
        r@.len() == fetched@.len(),
        forall|i: int|
            0 <= i < r@.len() ==> {
                &&& (#[trigger] r@[i]).name@ == fetched@[i].0@
                &&& r@[i].received_at is None
                &&& match fetched@[i].1 {
                    Ok(rec) => sorted_by(r@[i].fields.deep_view(), pair_le_fn())
                        && r@[i].fields.deep_view().to_multiset() == listed_pairs(
                        rec,
                    ).to_multiset(),
                    Err(msg) => r@[i].fields.deep_view() == seq![
                        (("error"@), ("Failed to read: "@ + msg@)),
                    ],
                }
            },
{
    let ghost orig = fetched@;
    let mut rest = fetched;
    let mut r: Vec<DisplaySecret> = Vec::new();
    proof {
        assert(orig.skip(0) =~= orig);
    }
    while rest.len() > 0
        invariant
            r@.len() + rest@.len() == orig.len(),
            rest@ == orig.skip(r@.len() as int),
            forall|i: int|
                0 <= i < r@.len() ==> {
                    &&& (#[trigger] r@[i]).name@ == orig[i].0@
                    &&& r@[i].received_at is None
                    &&& match orig[i].1 {
                        Ok(rec) => sorted_by(r@[i].fields.deep_view(), pair_le_fn())
                            && r@[i].fields.deep_view().to_multiset() == listed_pairs(
                            rec,
                        ).to_multiset(),
                        Err(msg) => r@[i].fields.deep_view() == seq![
                            (("error"@), ("Failed to read: "@ + msg@)),
                        ],
                    }
                },
        decreases rest@.len(),
    {
        let ghost k = r@.len() as int;
        proof {
            assert(rest@[0] == orig[k]);
        }
        let (name, res) = rest.remove(0);
        let d = display_of_result(name, res);
        r.push(d);
        proof {
            assert(rest@ =~= orig.skip(k + 1));
        }
    }
    r
}

/// What the point lookup answers for a field at a time: the resolved value
/// — a derived code where the raw value is a good otpauth descriptor — or
/// nothing when neither map holds the field.
pub open spec fn resolved_lookup(rec: SecretRecord, field: Seq<char>, now: i64) -> Option<
    Seq<char>,
> {
    match lookup_spec(rec, field) {
        Some(raw) => Some(crate::totp::resolved_value(raw, now)),
        None => None,
    }
}

/// The point lookup with code substitution, at a given time.
pub fn resolve_field_at(rec: &SecretRecord, field: &str, now: i64) -> (r: Option<String>)
    ensures
        match r {
            Some(v) => resolved_lookup(*rec, field@, now) == Some(v@),
            None => resolved_lookup(*rec, field@, now) is None,
        },
{
    match lookup_field(rec, field) {
        Some(raw) => Some(crate::totp::code_or_value_at(raw, now)),
        None => None,
    }
}

/// The point lookup with code substitution, against the clock; the time is
/// the only part of the outcome no contract can pin down.
pub fn resolve_field(rec: &SecretRecord, field: &str) -> (r: Option<String>)
    ensures
        exists|t: i64|
            t >= 0 && match r {
                Some(v) => #[trigger] resolved_lookup(*rec, field@, t) == Some(v@),
                None => resolved_lookup(*rec, field@, t) is None,
            },
{
    let now = crate::totp::current_unix_seconds();
    resolve_field_at(rec, field, now)
}

/// The body of the not-found answer for a present secret but absent field.
pub fn field_not_found_message(field: &str, name: &str) -> (r: String)
    ensures
        r@ == "Field '"@ + field@ + "' not found in secret '"@ + name@ + "'"@,
{
    let mut text = "Field '".to_owned();
    text.append(field);
    text.append("' not found in secret '");
    text.append(name);
    text.append("'");
    text
}

/// The body of the not-found answer for an absent secret.
pub fn secret_not_found_message(name: &str, err: &str) -> (r: String)
    ensures
        r@ == "Secret '"@ + name@ + "' not found: "@ + err@,
{
    let mut text = "Secret '".to_owned();
    text.append(name);
    text.append("' not found: ");
    text.append(err);
    text
}

/// With both maps present the list projection is built from the binary map
/// alone, while the point lookup falls back to the string map for a field
/// the binary map lacks: the two precedence rules are deliberately not the
/// same.
pub proof fn lemma_projection_precedence(
    rec: SecretRecord,
    b: Vec<(String, Vec<u8>)>,
    s: Vec<(String, String)>,
    field: Seq<char>,
)
    requires
        rec.binary_fields == Some(b),
        rec.string_fields == Some(s),
    ensures
        listed_pairs(rec) == lossy_map(b.deep_view()),
        match assoc(b.deep_view(), field) {
            Some(bytes) => lookup_spec(rec, field) == Some(utf8_lossy_of(bytes)),
            None => lookup_spec(rec, field) == assoc(s.deep_view(), field),
        },
{
}

/// For a record whose field keys are unique — as they are in a real map —
/// the sorted listing is strictly ascending by key.
pub proof fn lemma_binary_listing_strictly_sorted(
    rec: SecretRecord,
    b: Vec<(String, Vec<u8>)>,
    out: Seq<(Seq<char>, Seq<char>)>,
)
    requires
        rec.binary_fields == Some(b),
        keys_unique(b.deep_view()),
        sorted_by(out, pair_le_fn()),
        out.to_multiset() == listed_pairs(rec).to_multiset(),
    ensures
        strictly_ascending_keys(out),
{
    assert(keys_unique(lossy_map(b.deep_view()))) by {
        assert forall|i: int, j: int|
            0 <= i < lossy_map(b.deep_view()).len() && 0 <= j < lossy_map(b.deep_view()).len()
                && i != j implies #[trigger] lossy_map(b.deep_view())[i].0 != #[trigger] lossy_map(
            b.deep_view(),
        )[j].0 by {
            assert(b.deep_view()[i].0 != b.deep_view()[j].0);
        }
    }
    lemma_listing_strict_when_keys_unique(out, lossy_map(b.deep_view()));
}

} // verus!
