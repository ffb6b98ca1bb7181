//! Checking the JSON sidecar written next to a screenshot. Only the fields
//! this library reads are checked; a sidecar written for an older schema
//! version is read, one for a newer version is refused.
use vstd::prelude::*;

use crate::identity::{id_of, Identity};
use crate::json::{json_at, json_keys, json_lookup, json_object_keys, json_remove, json_without, JsonItem, JsonItemView};
use crate::result::{opt_view, SCHEMA_VERSION};
use crate::text::{chars_of, decimal, owned, push_char, push_decimal, push_str};

verus! {

/// The fields of a sidecar that the comparison uses.
#[derive(Debug, Clone)]
pub struct SidecarFields {
    pub id: String,
    pub captured_at: Option<String>,
}

/// What was found at a sidecar's path.
#[derive(Debug)]
pub enum SidecarRaw {
    /// No file.
    Absent,
    /// The file could not be read; the reason.
    Unreadable(String),
    /// The file is not JSON; the parser's message.
    NotJson(String),
    /// The JSON has no integer `schema_version`.
    NoVersion,
    /// The `schema_version` and the fields read for it, or why they could
    /// not be read.
    Versioned(u64, Result<SidecarFields, String>),
}

/// `"<side> sidecar is invalid at <path>: <detail>"`.
pub open spec fn invalid_text(side: Seq<char>, path: Seq<char>, detail: Seq<char>) -> Seq<char> {
    side + " sidecar is invalid at "@ + path + ": "@ + detail
}

/// The message for a sidecar written for a newer schema than this library
/// reads.
pub open spec fn newer_text(side: Seq<char>, version: u64, binary: Seq<char>) -> Seq<char> {
    side + " sidecar has schema_version "@ + decimal(version as nat) + " but this mitame "@ + binary
        + " reads schema_version 1 and older; update the binary"@
}

/// The message for a sidecar that names another identity.
pub open spec fn mismatch_text(side: Seq<char>, found: Seq<char>, expected: Seq<char>) -> Seq<char> {
    side + " sidecar id `"@ + found + "` does not match path identity `"@ + expected + "`"@
}

/// What checking a sidecar gives: nothing when there is none, its fields
/// when it is usable, else the message that reports it.
pub open spec fn sidecar_verdict(
    side: Seq<char>,
    path: Seq<char>,
    raw: SidecarRaw,
    expected: Seq<char>,
    binary: Seq<char>,
) -> Result<Option<SidecarFields>, Seq<char>> {
    match raw {
        SidecarRaw::Absent => Ok(None),
        SidecarRaw::Unreadable(e) => Err(invalid_text(side, path, "could not be read: "@ + e@)),
        SidecarRaw::NotJson(e) => Err(invalid_text(side, path, "not valid JSON: "@ + e@)),
        SidecarRaw::NoVersion => Err(invalid_text(side, path, "no integer schema_version"@)),
        SidecarRaw::Versioned(v, fields) => if v > SCHEMA_VERSION {
            Err(newer_text(side, v, binary))
        } else {
            match fields {
                Err(e) => Err(invalid_text(side, path, "missing a field mitame reads: "@ + e@)),
                Ok(f) => if f.id@ != expected {
                    Err(mismatch_text(side, f.id@, expected))
                } else {
                    Ok(Some(f))
                },
            }
        },
    }
}

fn invalid(side: &str, path: &str, detail_head: &str, detail_tail: &str) -> (r: String)
    ensures
        r@ == invalid_text(side@, path@, detail_head@ + detail_tail@),
{
    let mut r = owned(side);
    push_str(&mut r, " sidecar is invalid at ");
    push_str(&mut r, path);
    push_str(&mut r, ": ");
    push_str(&mut r, detail_head);
    push_str(&mut r, detail_tail);
    assert(r@ =~= invalid_text(side@, path@, detail_head@ + detail_tail@));
    r
}

/// Checks the sidecar found at `path` for identity `id`. `side` is
/// `baseline` or `current`; `binary` is this program's version, which the
/// message for a too-new sidecar names.
pub fn check_sidecar(side: &str, path: &str, raw: &SidecarRaw, id: &Identity, binary: &str) -> (r:
    Result<Option<SidecarFields>, String>)
    ensures
        match r {
            Ok(Some(f)) => sidecar_verdict(side@, path@, *raw, id_of(id@), binary@) matches Ok(
                Some(g),
            ) && g.id@ == f.id@ && g.captured_at == f.captured_at,
            Ok(None) => sidecar_verdict(side@, path@, *raw, id_of(id@), binary@) == Ok::<
                Option<SidecarFields>,
                Seq<char>,
            >(None),
            Err(m) => sidecar_verdict(side@, path@, *raw, id_of(id@), binary@) == Err::<
                Option<SidecarFields>,
                Seq<char>,
            >(m@),
        },
{
    match raw {
        SidecarRaw::Absent => Ok(None),
        SidecarRaw::Unreadable(e) => Err(invalid(side, path, "could not be read: ", e.as_str())),
        SidecarRaw::NotJson(e) => Err(invalid(side, path, "not valid JSON: ", e.as_str())),
        SidecarRaw::NoVersion => {
            let r = invalid(side, path, "no integer schema_version", "");
            assert("no integer schema_version"@ + ""@ =~= "no integer schema_version"@) by {
                reveal_strlit("");
            }
            Err(r)
        },
        SidecarRaw::Versioned(v, fields) => {
            if *v > SCHEMA_VERSION as u64 {
                let mut r = owned(side);
                push_str(&mut r, " sidecar has schema_version ");
                push_decimal(&mut r, *v);
                push_str(&mut r, " but this mitame ");
                push_str(&mut r, binary);
                push_str(&mut r, " reads schema_version 1 and older; update the binary");
                assert(r@ =~= newer_text(side@, *v, binary@));
                Err(r)
            } else {
                match fields {
                    Err(e) => Err(invalid(side, path, "missing a field mitame reads: ", e.as_str())),
                    Ok(f) => {
                        let expected = id.id();
                        if crate::text::text_eq(f.id.as_str(), expected.as_str()) {
                            let captured_at = match &f.captured_at {
                                Some(t) => Some(t.clone()),
                                None => None,
                            };
                            Ok(Some(SidecarFields { id: f.id.clone(), captured_at }))
                        } else {
                            let mut r = owned(side);
                            push_str(&mut r, " sidecar id `");
                            push_str(&mut r, f.id.as_str());
                            push_str(&mut r, "` does not match path identity `");
                            push_str(&mut r, expected.as_str());
                            push_str(&mut r, "`");
                            assert(r@ =~= mismatch_text(side@, f.id@, expected@));
                            Err(r)
                        }
                    },
                }
            }
        },
    }
}

/// Law: a sidecar written for a newer schema version than this library
/// reads is refused whatever its fields; one for this version or an older
/// one is read when its fields read and name the expected identity.
pub proof fn law_older_sidecars_read_newer_refused(
    side: Seq<char>,
    path: Seq<char>,
    version: u64,
    fields: Result<SidecarFields, String>,
    expected: Seq<char>,
    binary: Seq<char>,
)
    ensures
        version > SCHEMA_VERSION ==> sidecar_verdict(
            side,
            path,
            SidecarRaw::Versioned(version, fields),
            expected,
            binary,
        ) == Err::<Option<SidecarFields>, Seq<char>>(newer_text(side, version, binary)),
        version <= SCHEMA_VERSION && fields is Ok && fields->Ok_0.id@ == expected ==> sidecar_verdict(
            side,
            path,
            SidecarRaw::Versioned(version, fields),
            expected,
            binary,
        ) == Ok::<Option<SidecarFields>, Seq<char>>(Some(fields->Ok_0)),
{
}

/// Why the fields a comparison reads do not read, in the order they are
/// checked: `id` must be a string, `image` an object with a number
/// `scale`, and `captured_at`, when present and not null, a string.
pub open spec fn field_problem(
    id: JsonItemView,
    image: JsonItemView,
    scale: JsonItemView,
    captured: JsonItemView,
) -> Option<Seq<char>> {
    if id is Absent {
        Some("missing field `id`"@)
    } else if !(id is Text) {
        Some("invalid type for field `id`: expected a string"@)
    } else if image is Absent {
        Some("missing field `image`"@)
    } else if !(image is Object) {
        Some("invalid type for field `image`: expected an object"@)
    } else if scale is Absent {
        Some("missing field `scale`"@)
    } else if !(scale is Number) {
        Some("invalid type for field `scale`: expected a number"@)
    } else if !(captured is Absent || captured is Null || captured is Text) {
        Some("invalid type for field `captured_at`: expected a string"@)
    } else {
        None
    }
}

/// The capture time an item gives: its text, or none when absent or null.
pub open spec fn captured_of(captured: JsonItemView) -> Option<Seq<char>> {
    match captured {
        JsonItemView::Text(t) => Some(t),
        _ => None,
    }
}

/// What a sidecar's text gives, as plain values.
pub enum SidecarReading {
    NotJson(Seq<char>),
    NoVersion,
    /// The schema version, and the id, capture time and text of the scale,
    /// or why those fields do not read.
    Versioned(u64, Result<(Seq<char>, Option<Seq<char>>, Seq<char>), Seq<char>>),
}

/// The fields read from `text`: the first lookup the parser refuses gives
/// its message; otherwise the fields, or why they do not read.
pub open spec fn read_fields(text: Seq<char>) -> Result<
    Result<(Seq<char>, Option<Seq<char>>, Seq<char>), Seq<char>>,
    Seq<char>,
> {
    match json_at(text, "/id"@) {
        Err(m) => Err(m),
        Ok(id) => match json_at(text, "/image"@) {
            Err(m) => Err(m),
            Ok(image) => match json_at(text, "/image/scale"@) {
                Err(m) => Err(m),
                Ok(scale) => match json_at(text, "/captured_at"@) {
                    Err(m) => Err(m),
                    Ok(captured) => Ok(
                        match field_problem(id, image, scale, captured) {
                            Some(p) => Err(p),
                            None => Ok((id->Text_0, captured_of(captured), scale->Number_0)),
                        },
                    ),
                },
            },
        },
    }
}

/// What the text of a sidecar is: not JSON (with the parser's message),
/// JSON without a non-negative integer `schema_version`, or a version with
/// the fields the comparison reads.
pub open spec fn sidecar_reading(text: Seq<char>) -> SidecarReading {
    match json_at(text, ""@) {
        Err(m) => SidecarReading::NotJson(m),
        Ok(_) => match json_at(text, "/schema_version"@) {
            Err(m) => SidecarReading::NotJson(m),
            Ok(JsonItemView::Number(_, Some(v))) => match read_fields(text) {
                Err(m) => SidecarReading::NotJson(m),
                Ok(f) => SidecarReading::Versioned(v, f),
            },
            Ok(_) => SidecarReading::NoVersion,
        },
    }
}

/// The reading a classified sidecar and its scale text stand for.
pub open spec fn reading_of(raw: SidecarRaw, scale: Option<String>) -> Option<SidecarReading> {
    match (raw, scale) {
        (SidecarRaw::NotJson(e), None) => Some(SidecarReading::NotJson(e@)),
        (SidecarRaw::NoVersion, None) => Some(SidecarReading::NoVersion),
        (SidecarRaw::Versioned(v, Err(e)), None) => Some(SidecarReading::Versioned(v, Err(e@))),
        (SidecarRaw::Versioned(v, Ok(f)), Some(s)) => Some(
            SidecarReading::Versioned(v, Ok((f.id@, opt_view(f.captured_at), s@))),
        ),
        _ => None,
    }
}

fn field_problem_text(id: &JsonItem, image: &JsonItem, scale: &JsonItem, captured: &JsonItem) -> (r: Option<&'static str>)
    ensures
        match r {
            Some(t) => field_problem(id@, image@, scale@, captured@) == Some(t@),
            None => field_problem(id@, image@, scale@, captured@) is None,
        },
{
    match id {
        JsonItem::Absent => return Some("missing field `id`"),
        JsonItem::Text(_) => {},
        _ => return Some("invalid type for field `id`: expected a string"),
    }
    match image {
        JsonItem::Absent => return Some("missing field `image`"),
        JsonItem::Object => {},
        _ => return Some("invalid type for field `image`: expected an object"),
    }
    match scale {
        JsonItem::Absent => return Some("missing field `scale`"),
        JsonItem::Number(_, _) => {},
        _ => return Some("invalid type for field `scale`: expected a number"),
    }
    match captured {
        JsonItem::Absent | JsonItem::Null | JsonItem::Text(_) => None,
        _ => Some("invalid type for field `captured_at`: expected a string"),
    }
}

/// Reads the text of a sidecar for the checks of [`check_sidecar`]: whether
/// it is JSON, its `schema_version`, and the fields the comparison reads;
/// with them, the text of the `scale` number.
pub fn classify_sidecar(text: &str) -> (r: (SidecarRaw, Option<String>))
    ensures
        reading_of(r.0, r.1) == Some(sidecar_reading(text@)),
{
    match json_lookup(text, "") {
        Err(e) => return (SidecarRaw::NotJson(e), None),
        Ok(_) => {},
    }
    let version = match json_lookup(text, "/schema_version") {
        Err(e) => return (SidecarRaw::NotJson(e), None),
        Ok(JsonItem::Number(_, Some(v))) => v,
        Ok(_) => return (SidecarRaw::NoVersion, None),
    };
    let id = match json_lookup(text, "/id") {
        Err(e) => return (SidecarRaw::NotJson(e), None),
        Ok(i) => i,
    };
    let image = match json_lookup(text, "/image") {
        Err(e) => return (SidecarRaw::NotJson(e), None),
        Ok(i) => i,
    };
    let scale = match json_lookup(text, "/image/scale") {
        Err(e) => return (SidecarRaw::NotJson(e), None),
        Ok(i) => i,
    };
    let captured = match json_lookup(text, "/captured_at") {
        Err(e) => return (SidecarRaw::NotJson(e), None),
        Ok(i) => i,
    };
    match field_problem_text(&id, &image, &scale, &captured) {
        Some(p) => (SidecarRaw::Versioned(version, Err(owned(p))), None),
        None => {
            let id_text = match id {
                JsonItem::Text(t) => t,
                _ => String::new(),
            };
            let captured_at = match captured {
                JsonItem::Text(t) => Some(t),
                _ => None,
            };
            let scale_text = match scale {
                JsonItem::Number(t, _) => t,
                _ => String::new(),
            };
            (SidecarRaw::Versioned(version, Ok(SidecarFields { id: id_text, captured_at })), Some(scale_text))
        },
    }
}

/// `key` as a JSON Pointer token: `~` written `~0` and `/` written `~1`.
pub open spec fn pointer_token(key: Seq<char>) -> Seq<char>
    decreases key.len(),
{
    if key.len() == 0 {
        Seq::empty()
    } else {
        let c = key.last();
        pointer_token(key.drop_last()) + if c == '~' {
            seq!['~', '0']
        } else if c == '/' {
            seq!['~', '1']
        } else {
            seq![c]
        }
    }
}

fn push_pointer_token(out: &mut String, key: &str)
    ensures
        final(out)@ == old(out)@ + pointer_token(key@),
{
    let cs = chars_of(key);
    let mut i: usize = 0;
    assert(cs@.take(0) =~= Seq::<char>::empty());
    while i < cs.len()
        invariant
            0 <= i <= cs.len(),
            cs@ == key@,
            out@ == old(out)@ + pointer_token(cs@.take(i as int)),
        decreases cs.len() - i,
    {
        let c = cs[i];
        let ghost before = out@;
        if c == '~' {
            push_str(out, "~0");
            proof { reveal_strlit("~0"); }
        } else if c == '/' {
            push_str(out, "~1");
            proof { reveal_strlit("~1"); }
        } else {
            push_char(out, c);
        }
        proof {
            let t = cs@.take(i + 1);
            assert(t.drop_last() =~= cs@.take(i as int));
            assert(t.last() == c);
        }
        assert(out@ =~= old(out)@ + pointer_token(cs@.take(i + 1)));
        i = i + 1;
    }
    assert(cs@.take(cs.len() as int) =~= key@);
}

/// Removing each platform's `run_id` from `text`, one platform after
/// another, the document printed again after each.
pub open spec fn without_run_ids(text: Seq<char>, platforms: Seq<Seq<char>>) -> Result<Seq<char>, Seq<char>>
    decreases platforms.len(),
{
    if platforms.len() == 0 {
        Ok(text)
    } else {
        match without_run_ids(text, platforms.drop_last()) {
            Err(e) => Err(e),
            Ok(t) => json_without(t, "/ext/"@ + pointer_token(platforms.last()), "run_id"@),
        }
    }
}

/// The text a sidecar takes in the baseline: without `captured_at` and
/// without each platform's `run_id` under `ext`, which change on every
/// capture, pretty-printed in the adapter's key order, with a final
/// newline; or why the sidecar does not read.
pub open spec fn baseline_sidecar_spec(text: Seq<char>) -> Result<Seq<char>, Seq<char>> {
    match json_without(text, ""@, "captured_at"@) {
        Err(e) => Err(e),
        Ok(t) => match without_run_ids(
            t,
            match json_keys(t, "/ext"@) {
                Some(ks) => ks,
                None => Seq::empty(),
            },
        ) {
            Err(e) => Err(e),
            Ok(u) => Ok(u + "\n"@),
        },
    }
}

/// The text a current sidecar is copied into the baseline as.
pub fn baseline_sidecar_text(text: &str) -> (r: Result<String, String>)
    ensures
        match r {
            Ok(t) => baseline_sidecar_spec(text@) == Ok::<Seq<char>, Seq<char>>(t@),
            Err(e) => baseline_sidecar_spec(text@) == Err::<Seq<char>, Seq<char>>(e@),
        },
{
    proof {
        reveal_strlit("");
    }
    let mut t = match json_remove(text, "", "captured_at") {
        Ok(t) => t,
        Err(e) => return Err(e),
    };
    let ghost t1 = t@;
    let platforms = match json_object_keys(t.as_str(), "/ext") {
        Some(ks) => ks,
        None => Vec::new(),
    };
    let ghost ps = platforms@.map_values(|s: String| s@);
    assert(ps == match json_keys(t1, "/ext"@) {
        Some(ks) => ks,
        None => Seq::<Seq<char>>::empty(),
    }) by {
        if json_keys(t1, "/ext"@) is None {
            assert(ps =~= Seq::<Seq<char>>::empty());
        }
    }
    let mut i: usize = 0;
    assert(ps.take(0) =~= Seq::<Seq<char>>::empty());
    while i < platforms.len()
        invariant
            0 <= i <= platforms.len(),
            ps == platforms@.map_values(|s: String| s@),
            ps == match json_keys(t1, "/ext"@) {
                Some(ks) => ks,
                None => Seq::<Seq<char>>::empty(),
            },
            json_without(text@, ""@, "captured_at"@) == Ok::<Seq<char>, Seq<char>>(t1),
            without_run_ids(t1, ps.take(i as int)) == Ok::<Seq<char>, Seq<char>>(t@),
        decreases platforms.len() - i,
    {
        let mut pointer = owned("/ext/");
        push_pointer_token(&mut pointer, platforms[i].as_str());
        proof {
            let q = ps.take(i + 1);
            assert(q.drop_last() =~= ps.take(i as int));
            assert(q.last() == platforms@[i as int]@);
        }
        t = match json_remove(t.as_str(), pointer.as_str(), "run_id") {
            Ok(u) => u,
            Err(e) => {
                proof {
                    assert(without_run_ids(t1, ps.take(i + 1)) == Err::<Seq<char>, Seq<char>>(e@));
                    lemma_run_ids_err_prefix(t1, ps, i + 1);
                }
                return Err(e);
            },
        };
        i = i + 1;
    }
    assert(ps.take(platforms.len() as int) =~= ps);
    push_char(&mut t, '\n');
    proof {
        reveal_strlit("\n");
    }
    assert(t@ =~= baseline_sidecar_spec(text@)->Ok_0);
    Ok(t)
}

proof fn lemma_run_ids_err_prefix(t: Seq<char>, ps: Seq<Seq<char>>, n: int)
    requires
        0 <= n <= ps.len(),
        without_run_ids(t, ps.take(n)) is Err,
    ensures
        without_run_ids(t, ps) == without_run_ids(t, ps.take(n)),
    decreases ps.len() - n,
{
    if n < ps.len() {
        assert(ps.take(n + 1).drop_last() =~= ps.take(n));
        lemma_run_ids_err_prefix(t, ps, n + 1);
    } else {
        assert(ps.take(n) =~= ps);
    }
}

} // verus!
