//! Registry record parsing: one file per announced prefix, read as
//! `key: value` lines, validated into a route object or rejected with a
//! warning.
use vstd::prelude::*;
use vstd::string::StrSliceExecFns;
use vstd::string::StringExecFns;

use crate::prefix::{cidr_of, parse_ip_cidr, Prefix};
use crate::text::{
    all_digits, find_char, find_from, parse_i32, parse_i32_spec, str_eq, str_views, trim,
    trim_end, trim_end_spec, trim_spec, underscored_eq, underscores_to_slashes,
};

verus! {

/// One authorized-announcement candidate.
pub struct RouteObject {
    /// The announced network.
    pub prefix: Prefix,
    /// The autonomous-system numbers authorized to originate it, as decimal
    /// strings, in record order, duplicates kept.
    pub origins: Vec<String>,
    /// Declared maximum announceable length; set to the effective value by
    /// the filter engine.
    pub max_length: Option<i32>,
}

/// The mathematical value of a [`RouteObject`].
pub struct RouteObjectV {
    pub prefix: Prefix,
    pub origins: Seq<Seq<char>>,
    pub max_length: Option<i32>,
}

impl View for RouteObject {
    type V = RouteObjectV;

    open spec fn view(&self) -> RouteObjectV {
        RouteObjectV {
            prefix: self.prefix,
            origins: str_views(self.origins@),
            max_length: self.max_length,
        }
    }
}

pub open spec fn ro_views(s: Seq<RouteObject>) -> Seq<RouteObjectV> {
    s.map_values(|o: RouteObject| o@)
}

/// One registry record as handed in by the caller: the file's name and its
/// lines of text.
pub struct RecordFile {
    pub filename: String,
    pub lines: Vec<String>,
}

/// The key/value split of a record line: the text before the first colon
/// with trailing whitespace removed, and the text after it trimmed on both
/// sides.  A line without a colon carries no field.
pub open spec fn line_fields(line: Seq<char>) -> Option<(Seq<char>, Seq<char>)> {
    match find_from(line, ':', 0) {
        None => None,
        Some(i) => Some((trim_end_spec(line.take(i)), trim_spec(line.skip(i + 1)))),
    }
}

/// The fields gathered while reading one record.
pub struct BuilderV {
    pub prefix: Option<Seq<char>>,
    pub origins: Seq<Seq<char>>,
    pub max_length: Option<Seq<char>>,
}

pub open spec fn empty_builder() -> BuilderV {
    BuilderV { prefix: None, origins: Seq::empty(), max_length: None }
}

/// How one line updates the gathered fields: `route` and `route6` both set
/// the prefix (last one wins), `origin` appends, `max-length` sets the
/// declared maximum; unrecognized keys are ignored.
pub open spec fn apply_line(b: BuilderV, line: Seq<char>) -> BuilderV {
    match line_fields(line) {
        None => b,
        Some(kv) => {
            if kv.0 == "route"@ || kv.0 == "route6"@ {
                BuilderV { prefix: Some(kv.1), origins: b.origins, max_length: b.max_length }
            } else if kv.0 == "origin"@ {
                BuilderV { prefix: b.prefix, origins: b.origins.push(kv.1), max_length: b.max_length }
            } else if kv.0 == "max-length"@ {
                BuilderV { prefix: b.prefix, origins: b.origins, max_length: Some(kv.1) }
            } else {
                b
            }
        },
    }
}

/// The fields gathered from all lines of a record, in order.
pub open spec fn builder_of(lines: Seq<Seq<char>>) -> BuilderV
    decreases lines.len(),
{
    if lines.len() == 0 {
        empty_builder()
    } else {
        apply_line(builder_of(lines.drop_last()), lines.last())
    }
}

/// A valid origin token: the literal prefix "AS" followed by digits only.
pub open spec fn origin_valid(t: Seq<char>) -> bool {
    t.len() >= 2 && t[0] == 'A' && t[1] == 'S' && all_digits(t.skip(2))
}

pub open spec fn all_origins_valid(os: Seq<Seq<char>>) -> bool {
    forall|i: int| 0 <= i < os.len() ==> origin_valid(#[trigger] os[i])
}

/// Each origin token with its "AS" prefix stripped.
pub open spec fn strip_as(os: Seq<Seq<char>>) -> Seq<Seq<char>> {
    os.map_values(|t: Seq<char>| t.skip(2))
}

/// Validation of one gathered record, first failure wins: at least one
/// origin; every origin well-formed; a prefix present; the filename (with
/// underscores read as slashes) equal to the prefix text; the prefix a
/// valid CIDR literal; its family the expected one; the declared maximum,
/// if any, a valid `i32` literal.
pub open spec fn validate_spec(filename: Seq<char>, b: BuilderV, expect_v6: bool) -> Result<
    RouteObjectV,
    Seq<char>,
> {
    if b.origins.len() == 0 {
        Err("missing origin field in object"@)
    } else if !all_origins_valid(b.origins) {
        Err("Invalid origin field"@)
    } else if b.prefix is None {
        Err("missing route or route6 field in object"@)
    } else if underscores_to_slashes(filename) != b.prefix.unwrap() {
        Err("filename does not equal prefix field"@)
    } else {
        match cidr_of(b.prefix.unwrap()) {
            None => Err("Unable to parse IP CIDR"@),
            Some(p) => {
                if !p.is_v6 && expect_v6 {
                    Err("expected IPv6 but found an IPv4 object"@)
                } else if p.is_v6 && !expect_v6 {
                    Err("expected IPv4 but found an IPv6 object"@)
                } else {
                    match b.max_length {
                        None => Ok(
                            RouteObjectV {
                                prefix: p,
                                origins: strip_as(b.origins),
                                max_length: None,
                            },
                        ),
                        Some(ms) => match parse_i32_spec(ms) {
                            None => Err("Failed to parse max_length value as i32"@),
                            Some(v) => Ok(
                                RouteObjectV {
                                    prefix: p,
                                    origins: strip_as(b.origins),
                                    max_length: Some(v),
                                },
                            ),
                        },
                    }
                }
            },
        }
    }
}

/// What one record file yields: a route object or the reason it was
/// rejected.
pub open spec fn file_result(f: RecordFile, expect_v6: bool) -> Result<RouteObjectV, Seq<char>> {
    validate_spec(f.filename@, builder_of(str_views(f.lines@)), expect_v6)
}

fn origin_ok(t: &str) -> (r: bool)
    ensures
        r == origin_valid(t@),
{
    let n = t.unicode_len();
    if n < 2 {
        return false;
    }
    if t.get_char(0) != 'A' || t.get_char(1) != 'S' {
        return false;
    }
    let mut j: usize = 2;
    while j < n
        invariant
            n == t@.len(),
            2 <= j <= n,
            forall|k: int| 0 <= k < j - 2 ==> crate::text::is_digit(#[trigger] t@.skip(2)[k]),
        decreases n - j,
    {
        let c = t.get_char(j);
        if !(c >= '0' && c <= '9') {
            proof {
                assert(t@.skip(2)[j - 2] == t@[j as int]);
            }
            return false;
        }
        j += 1;
    }
    proof {
        assert(all_digits(t@.skip(2)));
    }
    true
}

pub open spec fn opt_view(o: Option<String>) -> Option<Seq<char>> {
    match o {
        Some(s) => Some(s@),
        None => None,
    }
}

/// Read one record file into a route object, or the reason it is rejected.
pub fn parse_record_file(file: &RecordFile, expect_v6: bool) -> (r: Result<RouteObject, String>)
    ensures
        (match r {
            Ok(o) => file_result(*file, expect_v6) == Ok::<RouteObjectV, Seq<char>>(o@)
                && o.prefix.wf(),
            Err(m) => file_result(*file, expect_v6) == Err::<RouteObjectV, Seq<char>>(m@),
        }),
{
    let mut prefix: Option<String> = None;
    let mut origins: Vec<String> = Vec::new();
    let mut max_length: Option<String> = None;
    let ghost lv = str_views(file.lines@);
    let mut i: usize = 0;
    proof {
        assert(lv.take(0) =~= Seq::<Seq<char>>::empty());
        assert(str_views(origins@) =~= Seq::<Seq<char>>::empty());
    }
    while i < file.lines.len()
        invariant
            lv == str_views(file.lines@),
            0 <= i <= file.lines.len(),
            builder_of(lv.take(i as int)) == (BuilderV {
                prefix: opt_view(prefix),
                origins: str_views(origins@),
                max_length: opt_view(max_length),
            }),
        decreases file.lines.len() - i,
    {
        let ghost b0 = builder_of(lv.take(i as int));
        let line: &String = &file.lines[i];
        proof {
            assert(lv.take(i + 1).drop_last() =~= lv.take(i as int));
            assert(lv.take(i + 1).last() == line@);
        }
        let n = line.as_str().unicode_len();
        match find_char(line.as_str(), ':') {
            None => {
                proof {
                    assert(builder_of(lv.take(i + 1)) == b0);
                }
            },
            Some(ci) => {
                let key_part = line.as_str().substring_char(0, ci);
                let key = trim_end(key_part);
                let val_part = line.as_str().substring_char(ci + 1, n);
                let val = trim(val_part);
                proof {
                    assert(key_part@ =~= line@.take(ci as int));
                    assert(val_part@ =~= line@.skip(ci + 1));
                    assert(line_fields(line@) == Some(
                        (trim_end_spec(line@.take(ci as int)), trim_spec(line@.skip(ci + 1))),
                    ));
                }
                if str_eq(key.as_str(), "route") || str_eq(key.as_str(), "route6") {
                    prefix = Some(val);
                } else if str_eq(key.as_str(), "origin") {
                    proof {
                        assert(str_views(origins@.push(val)) =~= str_views(origins@).push(val@));
                    }
                    origins.push(val);
                } else if str_eq(key.as_str(), "max-length") {
                    max_length = Some(val);
                }
                proof {
                    assert(builder_of(lv.take(i + 1)) == apply_line(b0, line@));
                }
            },
        }
        i += 1;
    }
    proof {
        assert(lv.take(file.lines@.len() as int) =~= lv);
    }
    let ghost b = builder_of(lv);
    if origins.len() == 0 {
        return Err("missing origin field in object".to_owned());
    }
    let mut j: usize = 0;
    while j < origins.len()
        invariant
            0 <= j <= origins.len(),
            origins.len() > 0,
            b == builder_of(str_views(file.lines@)),
            b.origins == str_views(origins@),
            forall|k: int| 0 <= k < j ==> origin_valid(#[trigger] str_views(origins@)[k]),
        decreases origins.len() - j,
    {
        if !origin_ok(origins[j].as_str()) {
            proof {
                assert(str_views(origins@)[j as int] == origins@[j as int]@);
                assert(!origin_valid(str_views(origins@)[j as int]));
                assert(!all_origins_valid(b.origins));
            }
            return Err("Invalid origin field".to_owned());
        }
        j += 1;
    }
    proof {
        assert(all_origins_valid(b.origins));
    }
    let mut stripped: Vec<String> = Vec::new();
    let mut j: usize = 0;
    while j < origins.len()
        invariant
            0 <= j <= origins.len(),
            b.origins == str_views(origins@),
            all_origins_valid(b.origins),
            str_views(stripped@) =~= strip_as(str_views(origins@)).take(j as int),
        decreases origins.len() - j,
    {
        let o: &String = &origins[j];
        proof {
            assert(str_views(origins@)[j as int] == origins@[j as int]@);
            assert(origin_valid(o@));
        }
        let t = o.as_str().substring_char(2, o.as_str().unicode_len()).to_owned();
        proof {
            assert(t@ =~= o@.skip(2));
            assert(str_views(stripped@.push(t)) =~= str_views(stripped@).push(o@.skip(2)));
            assert(strip_as(str_views(origins@)).take(j + 1) =~= strip_as(
                str_views(origins@),
            ).take(j as int).push(str_views(origins@)[j as int].skip(2)));
        }
        stripped.push(t);
        j += 1;
    }
    proof {
        assert(strip_as(b.origins).take(b.origins.len() as int) =~= strip_as(b.origins));
    }
    let prefix_text = match prefix {
        None => {
            return Err("missing route or route6 field in object".to_owned());
        },
        Some(p) => p,
    };
    if !underscored_eq(file.filename.as_str(), prefix_text.as_str()) {
        return Err("filename does not equal prefix field".to_owned());
    }
    let parsed = match parse_ip_cidr(prefix_text.as_str()) {
        None => {
            return Err("Unable to parse IP CIDR".to_owned());
        },
        Some(p) => p,
    };
    if !parsed.is_v6 && expect_v6 {
        return Err("expected IPv6 but found an IPv4 object".to_owned());
    }
    if parsed.is_v6 && !expect_v6 {
        return Err("expected IPv4 but found an IPv6 object".to_owned());
    }
    let max: Option<i32> = match max_length {
        None => None,
        Some(ms) => {
            match parse_i32(ms.as_str()) {
                None => {
                    return Err("Failed to parse max_length value as i32".to_owned());
                },
                Some(v) => Some(v),
            }
        },
    };
    Ok(RouteObject { prefix: parsed, origins: stripped, max_length: max })
}

/// The warning recorded for a rejected record file.
pub open spec fn file_warning(filename: Seq<char>, reason: Seq<char>) -> Seq<char> {
    "Error in file: "@ + filename + ": "@ + reason
}

/// The route objects that a list of record files yields, in file order.
pub open spec fn objects_of(files: Seq<RecordFile>, expect_v6: bool) -> Seq<RouteObjectV>
    decreases files.len(),
{
    if files.len() == 0 {
        Seq::empty()
    } else {
        objects_of(files.drop_last(), expect_v6) + (match file_result(files.last(), expect_v6) {
            Ok(o) => seq![o],
            Err(_) => Seq::empty(),
        })
    }
}

/// The warnings that a list of record files yields, in file order.
pub open spec fn warnings_of(files: Seq<RecordFile>, expect_v6: bool) -> Seq<Seq<char>>
    decreases files.len(),
{
    if files.len() == 0 {
        Seq::empty()
    } else {
        warnings_of(files.drop_last(), expect_v6) + (match file_result(files.last(), expect_v6) {
            Ok(_) => Seq::empty(),
            Err(m) => seq![file_warning(files.last().filename@, m)],
        })
    }
}

/// Read a directory's worth of record files: the valid route objects in
/// file order, and one warning per rejected file.
pub fn read_route_objects(files: &Vec<RecordFile>, expect_v6: bool) -> (r: (
    Vec<RouteObject>,
    Vec<String>,
))
    ensures
        ro_views(r.0@) == objects_of(files@, expect_v6),
        str_views(r.1@) == warnings_of(files@, expect_v6),
        forall|k: int| 0 <= k < r.0@.len() ==> (#[trigger] r.0@[k]).prefix.wf(),
{
    let mut objects: Vec<RouteObject> = Vec::new();
    let mut warnings: Vec<String> = Vec::new();
    let mut i: usize = 0;
    proof {
        assert(files@.take(0) =~= Seq::<RecordFile>::empty());
        assert(ro_views(objects@) =~= Seq::<RouteObjectV>::empty());
        assert(str_views(warnings@) =~= Seq::<Seq<char>>::empty());
    }
    while i < files.len()
        invariant
            0 <= i <= files.len(),
            ro_views(objects@) == objects_of(files@.take(i as int), expect_v6),
            str_views(warnings@) == warnings_of(files@.take(i as int), expect_v6),
            forall|k: int| 0 <= k < objects@.len() ==> (#[trigger] objects@[k]).prefix.wf(),
        decreases files.len() - i,
    {
        let f: &RecordFile = &files[i];
        proof {
            assert(files@.take(i + 1).drop_last() =~= files@.take(i as int));
            assert(files@.take(i + 1).last() == files@[i as int]);
        }
        match parse_record_file(f, expect_v6) {
            Ok(o) => {
                proof {
                    assert(ro_views(objects@.push(o)) =~= ro_views(objects@).push(o@));
                    assert(objects_of(files@.take(i + 1), expect_v6) =~= objects_of(
                        files@.take(i as int),
                        expect_v6,
                    ).push(o@));
                }
                objects.push(o);
            },
            Err(m) => {
                let mut w = "Error in file: ".to_owned();
                w.append(f.filename.as_str());
                w.append(": ");
                w.append(m.as_str());
                proof {
                    assert(w@ == file_warning(files@[i as int].filename@, m@));
                    assert(str_views(warnings@.push(w)) =~= str_views(warnings@).push(w@));
                    assert(warnings_of(files@.take(i + 1), expect_v6) =~= warnings_of(
                        files@.take(i as int),
                        expect_v6,
                    ).push(w@));
                }
                warnings.push(w);
            },
        }
        i += 1;
    }
    proof {
        assert(files@.take(files@.len() as int) =~= files@);
    }
    (objects, warnings)
}

/// A record whose filename, with underscores read as slashes, differs from
/// its prefix field is always rejected, provided it got past the origin
/// checks; its warning is the filename-mismatch reason.
pub proof fn lemma_filename_mismatch_rejected(f: RecordFile, expect_v6: bool)
    requires
        builder_of(str_views(f.lines@)).origins.len() > 0,
        all_origins_valid(builder_of(str_views(f.lines@)).origins),
        builder_of(str_views(f.lines@)).prefix is Some,
        underscores_to_slashes(f.filename@) != builder_of(str_views(f.lines@)).prefix.unwrap(),
    ensures
        file_result(f, expect_v6) == Err::<RouteObjectV, Seq<char>>(
            "filename does not equal prefix field"@,
        ),
{
}

} // verus!
