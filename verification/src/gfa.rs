//! The graph-exchange data model and its line parser: records for headers,
//! segments, links, walks and paths, a configurable dispatcher that classifies
//! a line by its leading tag, and the in-memory graph that accumulates parsed
//! records.

use crate::bytes::{
    all_dec_digits, dec_to_usize, dec_value, has_prefix, is_dec_digit, split_bytes, split_spec,
    starts_with_bytes, trim_bytes, trim_spec, views_of,
};
use crate::error::CmdError;
use vstd::prelude::*;

verus! {

/// What `String::from_utf8_lossy` decodes the bytes `s` to.
pub uninterp spec fn lossy_decode(s: Seq<u8>) -> Seq<char>;

/// Every byte of `s` is ASCII.
pub open spec fn all_ascii(s: Seq<u8>) -> bool {
    forall|i: int| 0 <= i < s.len() ==> #[trigger] s[i] < 128
}

/// Relies on `String::from_utf8_lossy`: the result depends on the bytes
/// alone, and ASCII bytes decode to themselves.
#[verifier::external_body]
fn lossy_to_string(s: &[u8]) -> (r: String)
    ensures
        r@ == lossy_decode(s@),
        all_ascii(s@) ==> r@ == s@.map_values(|b: u8| b as char),
{
    String::from_utf8_lossy(s).into_owned()
}

/// Decodes an unsigned-integer token by base-10 digit accumulation. Any
/// non-digit byte, and any value that does not fit in `usize`, is a parse
/// failure; the empty token decodes to 0.
pub fn u8_slice_to_usize(slice: &[u8]) -> (r: Result<usize, CmdError>)
    ensures
        r is Ok <==> all_dec_digits(slice@) && dec_value(slice@) <= usize::MAX,
        r matches Ok(n) ==> n == dec_value(slice@),
        r matches Err(e) ==> e == CmdError::ParseError,
{
    match dec_to_usize(slice) {
        Some(n) => Ok(n),
        None => Err(CmdError::ParseError),
    }
}

/// The token `VN:Z:` that introduces a header's version field.
pub open spec fn vnz_prefix() -> Seq<u8> {
    seq![86u8, 78u8, 58u8, 90u8, 58u8]
}

/// The token `RS:Z:` that may introduce a header's sample field.
pub open spec fn rsz_prefix() -> Seq<u8> {
    seq![82u8, 83u8, 58u8, 90u8, 58u8]
}

fn vnz_vec() -> (r: Vec<u8>)
    ensures
        r@ == vnz_prefix(),
{
    let mut v: Vec<u8> = Vec::new();
    v.push(86);
    v.push(78);
    v.push(58);
    v.push(90);
    v.push(58);
    proof {
        assert(v@ =~= vnz_prefix());
    }
    v
}

fn rsz_vec() -> (r: Vec<u8>)
    ensures
        r@ == rsz_prefix(),
{
    let mut v: Vec<u8> = Vec::new();
    v.push(82);
    v.push(83);
    v.push(58);
    v.push(90);
    v.push(58);
    proof {
        assert(v@ =~= rsz_prefix());
    }
    v
}

/// A coordinate range on a sample's chromosome; `end - start` equals the sum
/// of traversed segment lengths whenever that sum is known.
#[derive(Debug, Clone, Copy, PartialEq, Eq, Structural)]
pub struct Range {
    pub start: usize,
    pub end: usize,
}

/// The file header: a version string and, optionally, sample names.
pub struct Header {
    pub version: String,
    pub samples: Option<Vec<String>>,
}

/// The mathematical content of a [`Header`].
#[verifier::ext_equal]
pub struct HeaderV {
    pub version: Seq<char>,
    pub samples: Option<Seq<Seq<char>>>,
}

impl View for Header {
    type V = HeaderV;

    open spec fn view(&self) -> HeaderV {
        HeaderV {
            version: self.version@,
            samples: match self.samples {
                Some(v) => Some(v.deep_view()),
                None => None,
            },
        }
    }
}

/// A node of the sequence graph: an identifier and its residue bytes.
pub struct Segment {
    pub id: usize,
    pub sequence: Vec<u8>,
}

/// The mathematical content of a [`Segment`].
#[verifier::ext_equal]
pub struct SegmentV {
    pub id: usize,
    pub sequence: Seq<u8>,
}

impl View for Segment {
    type V = SegmentV;

    open spec fn view(&self) -> SegmentV {
        SegmentV { id: self.id, sequence: self.sequence@ }
    }
}

/// A directed, oriented edge between two segments; `true` is forward (`+`).
pub struct Link {
    pub from_segment: usize,
    pub from_orient: bool,
    pub to_segment: usize,
    pub to_orient: bool,
}

/// A legacy traversal record: oriented segments as a comma-separated list,
/// with an optional coordinate range.
pub struct Path {
    pub sample: String,
    pub haptype: u8,
    pub chroms: String,
    pub ranges: Option<Range>,
    pub unit: Vec<u8>,
}

/// The mathematical content of a [`Path`].
#[verifier::ext_equal]
pub struct PathV {
    pub sample: Seq<char>,
    pub haptype: u8,
    pub chroms: Seq<char>,
    pub ranges: Option<Range>,
    pub unit: Seq<u8>,
}

impl View for Path {
    type V = PathV;

    open spec fn view(&self) -> PathV {
        PathV {
            sample: self.sample@,
            haptype: self.haptype,
            chroms: self.chroms@,
            ranges: self.ranges,
            unit: self.unit@,
        }
    }
}

/// A compact traversal record: orientation-prefixed segment runs, always with
/// an explicit coordinate range.
pub struct Walk {
    pub sample: String,
    pub haptype: String,
    pub chroms: String,
    pub ranges: Range,
    pub unit: Vec<u8>,
}

/// The mathematical content of a [`Walk`].
#[verifier::ext_equal]
pub struct WalkV {
    pub sample: Seq<char>,
    pub haptype: Seq<char>,
    pub chroms: Seq<char>,
    pub ranges: Range,
    pub unit: Seq<u8>,
}

impl View for Walk {
    type V = WalkV;

    open spec fn view(&self) -> WalkV {
        WalkV {
            sample: self.sample@,
            haptype: self.haptype@,
            chroms: self.chroms@,
            ranges: self.ranges,
            unit: self.unit@,
        }
    }
}

/// One parsed record of any kind.
pub enum GfaEntity {
    Header(Header),
    Segment(Segment),
    Link(Link),
    Walk(Walk),
    Path(Path),
}

/// The mathematical content of a [`GfaEntity`].
#[verifier::ext_equal]
pub enum EntityV {
    Header(HeaderV),
    Segment(SegmentV),
    Link(Link),
    Walk(WalkV),
    Path(PathV),
}

impl View for GfaEntity {
    type V = EntityV;

    open spec fn view(&self) -> EntityV {
        match self {
            GfaEntity::Header(h) => EntityV::Header(h@),
            GfaEntity::Segment(s) => EntityV::Segment(s@),
            GfaEntity::Link(l) => EntityV::Link(*l),
            GfaEntity::Walk(w) => EntityV::Walk(w@),
            GfaEntity::Path(p) => EntityV::Path(p@),
        }
    }
}

/// What the `H` grammar makes of the fields after the tag: a `VN:Z:`-prefixed
/// version, then any number of sample fields, each stripped of an optional
/// `RS:Z:` prefix. A missing or unprefixed version field is a failure.
pub open spec fn parse_header_spec(fields: Seq<Seq<u8>>) -> Result<HeaderV, CmdError> {
    if fields.len() < 1 {
        Err(CmdError::EmptyLine)
    } else if !has_prefix(fields[0], vnz_prefix()) {
        Err(CmdError::EmptyLine)
    } else {
        Ok(
            HeaderV {
                version: lossy_decode(fields[0].skip(5)),
                samples: if fields.len() == 1 {
                    None
                } else {
                    Some(Seq::new((fields.len() - 1) as nat, |j: int| sample_field_spec(fields[j + 1])))
                },
            },
        )
    }
}

/// A header sample field, with an `RS:Z:` prefix stripped when present.
pub open spec fn sample_field_spec(f: Seq<u8>) -> Seq<char> {
    if has_prefix(f, rsz_prefix()) {
        lossy_decode(f.skip(5))
    } else {
        lossy_decode(f)
    }
}

impl Header {
    /// An empty header: no version, no samples.
    fn new() -> (r: Header)
        ensures
            r@.version == Seq::<char>::empty(),
            r@.samples is None,
    {
        Header { version: String::new(), samples: None }
    }

    /// Parses the fields of an `H` record (the tag itself excluded).
    pub fn parse_line(fields: &[Vec<u8>]) -> (r: Result<Header, CmdError>)
        ensures
            r matches Ok(h) ==> parse_header_spec(views_of(fields@)) == Ok::<HeaderV, CmdError>(
                h@,
            ),
            r matches Err(e) ==> parse_header_spec(views_of(fields@)) == Err::<HeaderV, CmdError>(
                e,
            ),
    {
        let ghost fv = views_of(fields@);
        if fields.len() < 1 {
            return Err(CmdError::EmptyLine);
        }
        let vf = &fields[0];
        let vnz = vnz_vec();
        if !starts_with_bytes(vf.as_slice(), vnz.as_slice()) {
            return Err(CmdError::EmptyLine);
        }
        proof {
            assert(vf@.skip(5) =~= vf@.subrange(5, vf@.len() as int));
        }
        let version = lossy_to_string(vstd::slice::slice_subrange(vf.as_slice(), 5, vf.len()));
        let rsz = rsz_vec();
        let mut samples: Vec<String> = Vec::new();
        let mut i: usize = 1;
        while i < fields.len()
            invariant
                1 <= i <= fields@.len(),
                rsz@ == rsz_prefix(),
                samples@.len() == i - 1,
                forall|j: int|
                    0 <= j < i - 1 ==> (#[trigger] samples@[j])@ == sample_field_spec(
                        views_of(fields@)[j + 1],
                    ),
            decreases fields@.len() - i,
        {
            let f = &fields[i];
            let s = if starts_with_bytes(f.as_slice(), rsz.as_slice()) {
                proof {
                    assert(f@.skip(5) =~= f@.subrange(5, f@.len() as int));
                }
                lossy_to_string(vstd::slice::slice_subrange(f.as_slice(), 5, f.len()))
            } else {
                lossy_to_string(f.as_slice())
            };
            samples.push(s);
            i = i + 1;
        }
        if samples.len() == 0 {
            let r = Header { version, samples: None };
            proof {
                assert(parse_header_spec(fv) == Ok::<HeaderV, CmdError>(r@));
            }
            Ok(r)
        } else {
            let r = Header { version, samples: Some(samples) };
            proof {
                let h = parse_header_spec(fv)->Ok_0;
                assert(r@.samples->Some_0 =~~= h.samples->Some_0);
                assert(parse_header_spec(fv) == Ok::<HeaderV, CmdError>(r@));
            }
            Ok(r)
        }
    }
}

/// What the `S` grammar makes of the fields after the tag: a numeric segment
/// id, then the raw residue bytes.
pub open spec fn parse_segment_spec(fields: Seq<Seq<u8>>) -> Result<SegmentV, CmdError> {
    if fields.len() < 1 {
        Err(CmdError::EmptyLine)
    } else if !(all_dec_digits(fields[0]) && dec_value(fields[0]) <= usize::MAX) {
        Err(CmdError::ParseError)
    } else if fields.len() < 2 {
        Err(CmdError::EmptyLine)
    } else {
        Ok(SegmentV { id: dec_value(fields[0]) as usize, sequence: fields[1] })
    }
}

impl Segment {
    /// Parses the fields of an `S` record (the tag itself excluded).
    pub fn parse_line(fields: &[Vec<u8>]) -> (r: Result<Segment, CmdError>)
        ensures
            r matches Ok(s) ==> parse_segment_spec(views_of(fields@)) == Ok::<SegmentV, CmdError>(
                s@,
            ),
            r matches Err(e) ==> parse_segment_spec(views_of(fields@)) == Err::<
                SegmentV,
                CmdError,
            >(e),
    {
        if fields.len() < 1 {
            return Err(CmdError::EmptyLine);
        }
        let id = match u8_slice_to_usize(fields[0].as_slice()) {
            Ok(n) => n,
            Err(e) => {
                return Err(e);
            },
        };
        if fields.len() < 2 {
            return Err(CmdError::EmptyLine);
        }
        let sequence = vstd::slice::slice_to_vec(fields[1].as_slice());
        Ok(Segment { id, sequence })
    }
}

/// What an orientation field denotes: `+` is forward, `-` is reverse, and
/// anything else is rejected.
pub open spec fn orient_of(f: Seq<u8>) -> Option<bool> {
    if f == seq![43u8] {
        Some(true)
    } else if f == seq![45u8] {
        Some(false)
    } else {
        None
    }
}

/// Reads an orientation field.
fn parse_orient(f: &[u8]) -> (r: Option<bool>)
    ensures
        r == orient_of(f@),
{
    if f.len() == 1 && f[0] == 43 {
        proof {
            assert(f@ =~= seq![43u8]);
        }
        Some(true)
    } else if f.len() == 1 && f[0] == 45 {
        proof {
            assert(f@ =~= seq![45u8]);
            assert(f@ != seq![43u8]);
        }
        Some(false)
    } else {
        proof {
            if f@.len() == 1 {
                assert(f@ != seq![43u8] && f@ != seq![45u8]) by {
                    assert(seq![43u8][0] == 43u8 && seq![45u8][0] == 45u8);
                }
            } else {
                assert(seq![43u8].len() == 1 && seq![45u8].len() == 1);
            }
        }
        None
    }
}

/// What the `L` grammar makes of the fields after the tag: a source id, its
/// orientation, a destination id, its orientation; any further fields are
/// ignored.
pub open spec fn parse_link_spec(fields: Seq<Seq<u8>>) -> Result<Link, CmdError> {
    if fields.len() < 1 {
        Err(CmdError::EmptyLine)
    } else if !(all_dec_digits(fields[0]) && dec_value(fields[0]) <= usize::MAX) {
        Err(CmdError::ParseError)
    } else if fields.len() < 2 {
        Err(CmdError::EmptyLine)
    } else if orient_of(fields[1]) is None {
        Err(CmdError::ParseError)
    } else if fields.len() < 3 {
        Err(CmdError::EmptyLine)
    } else if !(all_dec_digits(fields[2]) && dec_value(fields[2]) <= usize::MAX) {
        Err(CmdError::ParseError)
    } else if fields.len() < 4 {
        Err(CmdError::EmptyLine)
    } else if orient_of(fields[3]) is None {
        Err(CmdError::ParseError)
    } else {
        Ok(
            Link {
                from_segment: dec_value(fields[0]) as usize,
                from_orient: orient_of(fields[1])->Some_0,
                to_segment: dec_value(fields[2]) as usize,
                to_orient: orient_of(fields[3])->Some_0,
            },
        )
    }
}

impl Link {
    /// Parses the fields of an `L` record (the tag itself excluded).
    pub fn parse_line(fields: &[Vec<u8>]) -> (r: Result<Link, CmdError>)
        ensures
            r matches Ok(l) ==> parse_link_spec(views_of(fields@)) == Ok::<Link, CmdError>(l),
            r matches Err(e) ==> parse_link_spec(views_of(fields@)) == Err::<Link, CmdError>(e),
    {
        if fields.len() < 1 {
            return Err(CmdError::EmptyLine);
        }
        let from_segment = match u8_slice_to_usize(fields[0].as_slice()) {
            Ok(n) => n,
            Err(e) => {
                return Err(e);
            },
        };
        if fields.len() < 2 {
            return Err(CmdError::EmptyLine);
        }
        let from_orient = match parse_orient(fields[1].as_slice()) {
            Some(b) => b,
            None => {
                return Err(CmdError::ParseError);
            },
        };
        if fields.len() < 3 {
            return Err(CmdError::EmptyLine);
        }
        let to_segment = match u8_slice_to_usize(fields[2].as_slice()) {
            Ok(n) => n,
            Err(e) => {
                return Err(e);
            },
        };
        if fields.len() < 4 {
            return Err(CmdError::EmptyLine);
        }
        let to_orient = match parse_orient(fields[3].as_slice()) {
            Some(b) => b,
            None => {
                return Err(CmdError::ParseError);
            },
        };
        Ok(Link { from_segment, from_orient, to_segment, to_orient })
    }
}

/// A nonempty all-digit token whose value fits below `max`.
pub open spec fn strict_dec_ok(s: Seq<u8>, max: nat) -> bool {
    s.len() >= 1 && all_dec_digits(s) && dec_value(s) <= max
}

/// Reads a nonempty unsigned-integer token that must fit in `usize`.
fn parse_usize_strict(s: &[u8]) -> (r: Option<usize>)
    ensures
        r is Some <==> strict_dec_ok(s@, usize::MAX as nat),
        r matches Some(n) ==> n == dec_value(s@),
{
    if s.len() == 0 {
        return None;
    }
    dec_to_usize(s)
}

/// Reads a nonempty unsigned-integer token that must fit in `u8`.
fn parse_u8_strict(s: &[u8]) -> (r: Option<u8>)
    ensures
        r is Some <==> strict_dec_ok(s@, u8::MAX as nat),
        r matches Some(n) ==> n == dec_value(s@),
{
    if s.len() == 0 {
        return None;
    }
    match dec_to_usize(s) {
        Some(n) => if n <= 255 {
            Some(n as u8)
        } else {
            None
        },
        None => None,
    }
}

/// What the `W` grammar makes of the fields after the tag: sample, haplotype
/// and chromosome strings, numeric start and end coordinates, and the raw
/// traversal bytes; any further fields are ignored.
pub open spec fn parse_walk_spec(fields: Seq<Seq<u8>>) -> Result<WalkV, CmdError> {
    if fields.len() < 3 {
        Err(CmdError::EmptyLine)
    } else if fields.len() < 4 {
        Err(CmdError::EmptyLine)
    } else if !(all_dec_digits(fields[3]) && dec_value(fields[3]) <= usize::MAX) {
        Err(CmdError::ParseError)
    } else if fields.len() < 5 {
        Err(CmdError::EmptyLine)
    } else if !(all_dec_digits(fields[4]) && dec_value(fields[4]) <= usize::MAX) {
        Err(CmdError::ParseError)
    } else if fields.len() < 6 {
        Err(CmdError::EmptyLine)
    } else {
        Ok(
            WalkV {
                sample: lossy_decode(fields[0]),
                haptype: lossy_decode(fields[1]),
                chroms: lossy_decode(fields[2]),
                ranges: Range {
                    start: dec_value(fields[3]) as usize,
                    end: dec_value(fields[4]) as usize,
                },
                unit: fields[5],
            },
        )
    }
}

impl Walk {
    /// Parses the fields of a `W` record (the tag itself excluded).
    pub fn parse_line(fields: &[Vec<u8>]) -> (r: Result<Walk, CmdError>)
        ensures
            r matches Ok(w) ==> parse_walk_spec(views_of(fields@)) == Ok::<WalkV, CmdError>(w@),
            r matches Err(e) ==> parse_walk_spec(views_of(fields@)) == Err::<WalkV, CmdError>(e),
    {
        if fields.len() < 3 {
            return Err(CmdError::EmptyLine);
        }
        let sample = lossy_to_string(fields[0].as_slice());
        let haptype = lossy_to_string(fields[1].as_slice());
        let chroms = lossy_to_string(fields[2].as_slice());
        if fields.len() < 4 {
            return Err(CmdError::EmptyLine);
        }
        let start = match u8_slice_to_usize(fields[3].as_slice()) {
            Ok(n) => n,
            Err(e) => {
                return Err(e);
            },
        };
        if fields.len() < 5 {
            return Err(CmdError::EmptyLine);
        }
        let end = match u8_slice_to_usize(fields[4].as_slice()) {
            Ok(n) => n,
            Err(e) => {
                return Err(e);
            },
        };
        if fields.len() < 6 {
            return Err(CmdError::EmptyLine);
        }
        let unit = vstd::slice::slice_to_vec(fields[5].as_slice());
        Ok(Walk { sample, haptype, chroms, ranges: Range { start, end }, unit })
    }
}

/// What the `P` grammar makes of the fields after the tag: one combined
/// `sample#haptype#chrom[:start-end]` token (at least three `#`-parts, a
/// haplotype that fits in one byte, and an inclusive range recovered from an
/// optional `:`-suffix), then the raw traversal bytes.
pub open spec fn parse_path_spec(fields: Seq<Seq<u8>>) -> Result<PathV, CmdError> {
    if fields.len() < 1 {
        Err(CmdError::EmptyLine)
    } else {
        let parts = split_spec(fields[0], 35);
        if parts.len() < 3 {
            Err(CmdError::ParseError)
        } else if !strict_dec_ok(parts[1], u8::MAX as nat) {
            Err(CmdError::ParseError)
        } else {
            let ci = split_spec(parts[2], 58);
            if ci.len() == 2 {
                let ri = split_spec(ci[1], 45);
                if ri.len() < 2 {
                    Err(CmdError::ParseError)
                } else if !strict_dec_ok(ri[0], usize::MAX as nat) {
                    Err(CmdError::ParseError)
                } else if !strict_dec_ok(ri[1], usize::MAX as nat) {
                    Err(CmdError::ParseError)
                } else if fields.len() < 2 {
                    Err(CmdError::EmptyLine)
                } else {
                    Ok(
                        PathV {
                            sample: lossy_decode(parts[0]),
                            haptype: dec_value(parts[1]) as u8,
                            chroms: lossy_decode(ci[0]),
                            ranges: Some(
                                Range {
                                    start: dec_value(ri[0]) as usize,
                                    end: dec_value(ri[1]) as usize,
                                },
                            ),
                            unit: fields[1],
                        },
                    )
                }
            } else {
                if fields.len() < 2 {
                    Err(CmdError::EmptyLine)
                } else {
                    Ok(
                        PathV {
                            sample: lossy_decode(parts[0]),
                            haptype: dec_value(parts[1]) as u8,
                            chroms: lossy_decode(ci[0]),
                            ranges: None,
                            unit: fields[1],
                        },
                    )
                }
            }
        }
    }
}

impl Path {
    /// Parses the fields of a `P` record (the tag itself excluded).
    pub fn parse_line(fields: &[Vec<u8>]) -> (r: Result<Path, CmdError>)
        ensures
            r matches Ok(p) ==> parse_path_spec(views_of(fields@)) == Ok::<PathV, CmdError>(p@),
            r matches Err(e) ==> parse_path_spec(views_of(fields@)) == Err::<PathV, CmdError>(e),
    {
        if fields.len() < 1 {
            return Err(CmdError::EmptyLine);
        }
        let parts = split_bytes(fields[0].as_slice(), 35);
        if parts.len() < 3 {
            return Err(CmdError::ParseError);
        }
        let sample = lossy_to_string(parts[0].as_slice());
        let haptype = match parse_u8_strict(parts[1].as_slice()) {
            Some(n) => n,
            None => {
                return Err(CmdError::ParseError);
            },
        };
        let ci = split_bytes(parts[2].as_slice(), 58);
        let chroms = lossy_to_string(ci[0].as_slice());
        let ranges: Option<Range> = if ci.len() == 2 {
            let ri = split_bytes(ci[1].as_slice(), 45);
            if ri.len() < 2 {
                return Err(CmdError::ParseError);
            }
            let start = match parse_usize_strict(ri[0].as_slice()) {
                Some(n) => n,
                None => {
                    return Err(CmdError::ParseError);
                },
            };
            let end = match parse_usize_strict(ri[1].as_slice()) {
                Some(n) => n,
                None => {
                    return Err(CmdError::ParseError);
                },
            };
            Some(Range { start, end })
        } else {
            None
        };
        if fields.len() < 2 {
            return Err(CmdError::EmptyLine);
        }
        let unit = vstd::slice::slice_to_vec(fields[1].as_slice());
        Ok(Path { sample, haptype, chroms, ranges, unit })
    }
}

/// Chooses which record kinds a [`GFAParser`] materializes. Headers are
/// always materialized.
#[derive(Debug, Default, Clone, Copy)]
pub struct GFAParserBuilder {
    pub segments: bool,
    pub links: bool,
    pub walks: bool,
    pub paths: bool,
}

impl GFAParserBuilder {
    /// Materialize no optional record kind, useful to parse one line type.
    pub fn new() -> (r: Self)
        ensures
            !r.segments && !r.links && !r.walks && !r.paths,
    {
        GFAParserBuilder { segments: false, links: false, walks: false, paths: false }
    }

    /// Materialize every record kind.
    pub fn all() -> (r: Self)
        ensures
            r.segments && r.links && r.walks && r.paths,
    {
        GFAParserBuilder { segments: true, links: true, walks: true, paths: true }
    }

    /// Chooses whether segment records are materialized.
    pub fn get_segments(self, enabled: bool) -> (r: Self)
        ensures
            r.segments == enabled,
            r.links == self.links && r.walks == self.walks && r.paths == self.paths,
    {
        GFAParserBuilder { segments: enabled, ..self }
    }

    /// Chooses whether link records are materialized.
    pub fn get_links(self, enabled: bool) -> (r: Self)
        ensures
            r.links == enabled,
            r.segments == self.segments && r.walks == self.walks && r.paths == self.paths,
    {
        GFAParserBuilder { links: enabled, ..self }
    }

    /// Chooses whether path records are materialized.
    pub fn get_paths(self, enabled: bool) -> (r: Self)
        ensures
            r.paths == enabled,
            r.segments == self.segments && r.links == self.links && r.walks == self.walks,
    {
        GFAParserBuilder { paths: enabled, ..self }
    }

    /// Chooses whether walk records are materialized.
    pub fn get_walks(self, enabled: bool) -> (r: Self)
        ensures
            r.walks == enabled,
            r.segments == self.segments && r.links == self.links && r.paths == self.paths,
    {
        GFAParserBuilder { walks: enabled, ..self }
    }

    /// Fixes the configuration into a parser.
    pub fn build(self) -> (r: GFAParser)
        ensures
            r.segments_on() == self.segments,
            r.links_on() == self.links,
            r.walks_on() == self.walks,
            r.paths_on() == self.paths,
    {
        GFAParser {
            segments: self.segments,
            links: self.links,
            walks: self.walks,
            paths: self.paths,
        }
    }
}

/// Classifies lines by their leading tag and parses each into a typed record,
/// honoring the configured record kinds.
#[derive(Debug, Clone)]
pub struct GFAParser {
    segments: bool,
    links: bool,
    walks: bool,
    paths: bool,
}

impl GFAParser {
    /// Whether segment records are materialized.
    pub closed spec fn segments_on(&self) -> bool {
        self.segments
    }

    /// Whether link records are materialized.
    pub closed spec fn links_on(&self) -> bool {
        self.links
    }

    /// Whether walk records are materialized.
    pub closed spec fn walks_on(&self) -> bool {
        self.walks
    }

    /// Whether path records are materialized.
    pub closed spec fn paths_on(&self) -> bool {
        self.paths
    }

    /// A parser that materializes all record kinds.
    pub fn new() -> (r: Self)
        ensures
            r.segments_on() && r.links_on() && r.walks_on() && r.paths_on(),
    {
        GFAParserBuilder::all().build()
    }
}

impl Default for GFAParser {
    /// A parser that materializes all record kinds.
    fn default() -> (r: Self)
        ensures
            r.segments_on() && r.links_on() && r.walks_on() && r.paths_on(),
    {
        let config = GFAParserBuilder::all();
        config.build()
    }
}

/// What the dispatcher makes of one line: ASCII whitespace is trimmed at the
/// edges, the line is split on tabs, and the first field selects the grammar.
/// `H` is always materialized; `S`, `L`, `W` and `P` yield `None` when their
/// kind is disabled; any other first field is an unknown line type.
pub open spec fn parse_entity_spec(
    segments: bool,
    links: bool,
    walks: bool,
    paths: bool,
    line: Seq<u8>,
) -> Result<Option<EntityV>, CmdError> {
    let fs = split_spec(trim_spec(line), 9);
    let tag = fs[0];
    if tag == seq![72u8] {
        match parse_header_spec(fs.drop_first()) {
            Ok(h) => Ok(Some(EntityV::Header(h))),
            Err(e) => Err(e),
        }
    } else if tag == seq![83u8] {
        if segments {
            match parse_segment_spec(fs.drop_first()) {
                Ok(s) => Ok(Some(EntityV::Segment(s))),
                Err(e) => Err(e),
            }
        } else {
            Ok(None)
        }
    } else if tag == seq![76u8] {
        if links {
            match parse_link_spec(fs.drop_first()) {
                Ok(l) => Ok(Some(EntityV::Link(l))),
                Err(e) => Err(e),
            }
        } else {
            Ok(None)
        }
    } else if tag == seq![87u8] {
        if walks {
            match parse_walk_spec(fs.drop_first()) {
                Ok(w) => Ok(Some(EntityV::Walk(w))),
                Err(e) => Err(e),
            }
        } else {
            Ok(None)
        }
    } else if tag == seq![80u8] {
        if paths {
            match parse_path_spec(fs.drop_first()) {
                Ok(p) => Ok(Some(EntityV::Path(p))),
                Err(e) => Err(e),
            }
        } else {
            Ok(None)
        }
    } else {
        Err(CmdError::UnknownLineType)
    }
}

impl GFAParser {
    /// Parses one line into a typed record, `None` for a disabled kind, or a
    /// failure. An unknown leading tag is always a failure, never skipped.
    pub fn parse_gfa_line(&self, bytes: &[u8]) -> (r: Result<Option<GfaEntity>, CmdError>)
        ensures
            ({
                let spec_r = parse_entity_spec(
                    self.segments_on(),
                    self.links_on(),
                    self.walks_on(),
                    self.paths_on(),
                    bytes@,
                );
                &&& (r matches Ok(Some(en)) ==> spec_r == Ok::<Option<EntityV>, CmdError>(
                    Some(en@),
                ))
                &&& (r matches Ok(None) ==> spec_r == Ok::<Option<EntityV>, CmdError>(None))
                &&& (r matches Err(e) ==> spec_r == Err::<Option<EntityV>, CmdError>(e))
            }),
    {
        let trimmed = trim_bytes(bytes);
        let fields = split_bytes(trimmed.as_slice(), 9);
        let ghost fs = split_spec(trim_spec(bytes@), 9);
        proof {
            assert(views_of(fields@) == fs);
            crate::bytes::lemma_split_spec_len(trim_spec(bytes@), 9);
        }
        let rest = vstd::slice::slice_subrange(fields.as_slice(), 1, fields.len());
        proof {
            assert(views_of(rest@) =~~= fs.drop_first());
        }
        let tag = &fields[0];
        if tag.len() != 1 {
            proof {
                assert(fs[0] != seq![72u8] && fs[0] != seq![83u8] && fs[0] != seq![76u8] && fs[0]
                    != seq![87u8] && fs[0] != seq![80u8]);
            }
            return Err(CmdError::UnknownLineType);
        }
        let b = tag[0];
        proof {
            assert(fs[0] =~= seq![tag@[0]]);
        }
        if b == 72 {
            proof {
                assert(fs[0] =~= seq![72u8]);
            }
            match Header::parse_line(rest) {
                Ok(h) => Ok(Some(GfaEntity::Header(h))),
                Err(e) => Err(e),
            }
        } else if b == 83 {
            proof {
                assert(fs[0] =~= seq![83u8]);
                assert(fs[0] != seq![72u8]);
            }
            if self.segments {
                match Segment::parse_line(rest) {
                    Ok(s) => Ok(Some(GfaEntity::Segment(s))),
                    Err(e) => Err(e),
                }
            } else {
                Ok(None)
            }
        } else if b == 76 {
            proof {
                assert(fs[0] =~= seq![76u8]);
                assert(fs[0] != seq![72u8] && fs[0] != seq![83u8]);
            }
            if self.links {
                match Link::parse_line(rest) {
                    Ok(l) => Ok(Some(GfaEntity::Link(l))),
                    Err(e) => Err(e),
                }
            } else {
                Ok(None)
            }
        } else if b == 87 {
            proof {
                assert(fs[0] =~= seq![87u8]);
                assert(fs[0] != seq![72u8] && fs[0] != seq![83u8] && fs[0] != seq![76u8]);
            }
            if self.walks {
                match Walk::parse_line(rest) {
                    Ok(w) => Ok(Some(GfaEntity::Walk(w))),
                    Err(e) => Err(e),
                }
            } else {
                Ok(None)
            }
        } else if b == 80 {
            proof {
                assert(fs[0] =~= seq![80u8]);
                assert(fs[0] != seq![72u8] && fs[0] != seq![83u8] && fs[0] != seq![76u8] && fs[0]
                    != seq![87u8]);
            }
            if self.paths {
                match Path::parse_line(rest) {
                    Ok(p) => Ok(Some(GfaEntity::Path(p))),
                    Err(e) => Err(e),
                }
            } else {
                Ok(None)
            }
        } else {
            proof {
                assert(fs[0] != seq![72u8] && fs[0] != seq![83u8] && fs[0] != seq![76u8] && fs[0]
                    != seq![87u8] && fs[0] != seq![80u8]);
            }
            Err(CmdError::UnknownLineType)
        }
    }
}

/// The segment views held by a sequence of segments.
pub open spec fn seg_views(s: Seq<Segment>) -> Seq<SegmentV> {
    s.map_values(|x: Segment| x@)
}

/// The walk views held by a sequence of walks.
pub open spec fn walk_views(s: Seq<Walk>) -> Seq<WalkV> {
    s.map_values(|x: Walk| x@)
}

/// The path views held by a sequence of paths.
pub open spec fn path_views(s: Seq<Path>) -> Seq<PathV> {
    s.map_values(|x: Path| x@)
}

/// The aggregate in-memory graph: one header (last seen wins) and
/// insertion-ordered segments, links, walks and paths.
pub struct GFA {
    pub headers: Header,
    pub segments: Vec<Segment>,
    pub links: Vec<Link>,
    pub walks: Vec<Walk>,
    pub paths: Vec<Path>,
}

/// The mathematical content of a [`GFA`].
#[verifier::ext_equal]
pub struct GfaV {
    pub headers: HeaderV,
    pub segments: Seq<SegmentV>,
    pub links: Seq<Link>,
    pub walks: Seq<WalkV>,
    pub paths: Seq<PathV>,
}

impl View for GFA {
    type V = GfaV;

    open spec fn view(&self) -> GfaV {
        GfaV {
            headers: self.headers@,
            segments: seg_views(self.segments@),
            links: self.links@,
            walks: walk_views(self.walks@),
            paths: path_views(self.paths@),
        }
    }
}

/// A graph with an empty header and no records.
pub open spec fn empty_gfa() -> GfaV {
    GfaV {
        headers: HeaderV { version: Seq::<char>::empty(), samples: None },
        segments: Seq::<SegmentV>::empty(),
        links: Seq::<Link>::empty(),
        walks: Seq::<WalkV>::empty(),
        paths: Seq::<PathV>::empty(),
    }
}

/// How one record extends a graph: a header replaces the current header, and
/// every other record is appended to its kind's sequence.
pub open spec fn add_entity_spec(g: GfaV, e: EntityV) -> GfaV {
    match e {
        EntityV::Header(h) => GfaV { headers: h, ..g },
        EntityV::Segment(s) => GfaV { segments: g.segments.push(s), ..g },
        EntityV::Link(l) => GfaV { links: g.links.push(l), ..g },
        EntityV::Walk(w) => GfaV { walks: g.walks.push(w), ..g },
        EntityV::Path(p) => GfaV { paths: g.paths.push(p), ..g },
    }
}

/// The segment-length index over `s`: each segment id maps to the byte
/// length of its sequence, a later record overriding an earlier one.
pub open spec fn seg_len_map_spec(s: Seq<SegmentV>) -> Map<usize, usize>
    decreases s.len(),
{
    if s.len() == 0 {
        Map::<usize, usize>::empty()
    } else {
        seg_len_map_spec(s.drop_last()).insert(s.last().id, s.last().sequence.len() as usize)
    }
}

impl GFA {
    /// An empty graph.
    pub fn new() -> (r: Self)
        ensures
            r@ == empty_gfa(),
    {
        let r = GFA {
            headers: Header::new(),
            segments: Vec::new(),
            links: Vec::new(),
            walks: Vec::new(),
            paths: Vec::new(),
        };
        proof {
            assert(r@ =~~= empty_gfa());
        }
        r
    }

    /// Accumulates one parsed record.
    pub fn add_entity(&mut self, entity: GfaEntity)
        ensures
            final(self)@ == add_entity_spec(old(self)@, entity@),
    {
        let ghost g0 = self@;
        let ghost ev = entity@;
        match entity {
            GfaEntity::Header(header) => {
                self.headers = header;
            },
            GfaEntity::Segment(segment) => {
                self.segments.push(segment);
            },
            GfaEntity::Link(link) => {
                self.links.push(link);
            },
            GfaEntity::Walk(walk) => {
                self.walks.push(walk);
            },
            GfaEntity::Path(path) => {
                self.paths.push(path);
            },
        }
        proof {
            match ev {
                EntityV::Segment(s) => {
                    assert(seg_views(self.segments@) =~= g0.segments.push(s));
                },
                EntityV::Walk(w) => {
                    assert(walk_views(self.walks@) =~= g0.walks.push(w));
                },
                EntityV::Path(p) => {
                    assert(path_views(self.paths@) =~= g0.paths.push(p));
                },
                _ => {},
            }
            assert(self@ =~~= add_entity_spec(g0, ev));
        }
    }

    /// The derived index from segment id to sequence byte length.
    pub fn get_segment_len(&self) -> (r: std::collections::HashMap<usize, usize>)
        ensures
            r@ == seg_len_map_spec(seg_views(self.segments@)),
    {
        broadcast use vstd::std_specs::hash::group_hash_axioms;

        let mut len_map: std::collections::HashMap<usize, usize> = std::collections::HashMap::new();
        let mut i: usize = 0;
        proof {
            assert(seg_views(self.segments@).take(0) =~= Seq::<SegmentV>::empty());
        }
        while i < self.segments.len()
            invariant
                0 <= i <= self.segments@.len(),
                len_map@ == seg_len_map_spec(seg_views(self.segments@).take(i as int)),
                vstd::std_specs::hash::obeys_key_model::<usize>(),
                vstd::std_specs::hash::builds_valid_hashers::<std::hash::RandomState>(),
            decreases self.segments@.len() - i,
        {
            let seg = &self.segments[i];
            len_map.insert(seg.id, seg.sequence.len());
            i = i + 1;
            proof {
                let sv = seg_views(self.segments@);
                assert(sv.take(i as int).drop_last() =~= sv.take(i as int - 1));
                assert(sv.take(i as int).last() == sv[i as int - 1]);
            }
        }
        proof {
            assert(seg_views(self.segments@).take(i as int) =~= seg_views(self.segments@));
        }
        len_map
    }
}

/// How a sequence of lines extends a graph: each line is parsed in turn, a
/// disabled kind adds nothing, and the first failure aborts the whole run.
pub open spec fn parse_lines_spec(
    segments: bool,
    links: bool,
    walks: bool,
    paths: bool,
    lines: Seq<Seq<u8>>,
    g: GfaV,
) -> Result<GfaV, CmdError>
    decreases lines.len(),
{
    if lines.len() == 0 {
        Ok(g)
    } else {
        match parse_entity_spec(segments, links, walks, paths, lines[0]) {
            Err(e) => Err(e),
            Ok(None) => parse_lines_spec(segments, links, walks, paths, lines.drop_first(), g),
            Ok(Some(e)) => parse_lines_spec(
                segments,
                links,
                walks,
                paths,
                lines.drop_first(),
                add_entity_spec(g, e),
            ),
        }
    }
}

impl GFAParser {
    /// Builds a graph from the lines of a file, already separated on newline
    /// boundaries. The first malformed line aborts the whole run.
    pub fn parse_lines(&self, lines: &Vec<Vec<u8>>) -> (r: Result<GFA, CmdError>)
        ensures
            ({
                let spec_r = parse_lines_spec(
                    self.segments_on(),
                    self.links_on(),
                    self.walks_on(),
                    self.paths_on(),
                    views_of(lines@),
                    empty_gfa(),
                );
                &&& (r matches Ok(g) ==> spec_r == Ok::<GfaV, CmdError>(g@))
                &&& (r matches Err(e) ==> spec_r == Err::<GfaV, CmdError>(e))
            }),
    {
        let mut gfa = GFA::new();
        let mut i: usize = 0;
        let ghost lv = views_of(lines@);
        proof {
            assert(lv.skip(0) =~~= lv);
        }
        while i < lines.len()
            invariant
                0 <= i <= lines@.len(),
                lv == views_of(lines@),
                parse_lines_spec(
                    self.segments_on(),
                    self.links_on(),
                    self.walks_on(),
                    self.paths_on(),
                    lv,
                    empty_gfa(),
                ) == parse_lines_spec(
                    self.segments_on(),
                    self.links_on(),
                    self.walks_on(),
                    self.paths_on(),
                    lv.skip(i as int),
                    gfa@,
                ),
            decreases lines@.len() - i,
        {
            let ghost rem = lv.skip(i as int);
            proof {
                assert(rem.len() > 0);
                assert(rem[0] == lv[i as int]);
                assert(rem.drop_first() =~~= lv.skip(i as int + 1));
            }
            match self.parse_gfa_line(lines[i].as_slice()) {
                Ok(Some(entity)) => {
                    gfa.add_entity(entity);
                },
                Ok(None) => {},
                Err(e) => {
                    return Err(e);
                },
            }
            i = i + 1;
        }
        proof {
            assert(lv.skip(i as int) =~~= Seq::<Seq<u8>>::empty());
        }
        Ok(gfa)
    }
}

/// Base-10 accumulation of one more digit, saturating at `usize::MAX`.
pub open spec fn sat10(cur: nat, d: nat) -> nat {
    if cur * 10 + d > usize::MAX {
        usize::MAX as nat
    } else {
        cur * 10 + d
    }
}

/// The numbers a scan of `s` yields from the state (`cur`, `in_num`): a `>`
/// or `<` marker ends a pending number, a digit extends it (saturating at
/// `usize::MAX`), any other byte changes nothing, and a pending number at the
/// end of input is still yielded.
pub open spec fn extract_rec(s: Seq<u8>, cur: nat, in_num: bool) -> Seq<nat>
    decreases s.len(),
{
    if s.len() == 0 {
        if in_num {
            seq![cur]
        } else {
            Seq::<nat>::empty()
        }
    } else {
        let b = s[0];
        if b == 62 || b == 60 {
            if in_num {
                seq![cur] + extract_rec(s.drop_first(), 0, false)
            } else {
                extract_rec(s.drop_first(), 0, false)
            }
        } else if is_dec_digit(b) {
            extract_rec(s.drop_first(), sat10(cur, (b - 48) as nat), true)
        } else {
            extract_rec(s.drop_first(), cur, in_num)
        }
    }
}

/// The segment ids embedded in a traversal byte string, in order.
pub open spec fn extract_nodes(s: Seq<u8>) -> Seq<nat> {
    extract_rec(s, 0, false)
}

/// A lazy, finite scan over a traversal byte string that yields each embedded
/// segment id, ignoring orientation markers and any other non-digit bytes.
pub struct NodeIterator {
    data: Vec<u8>,
    pos: usize,
    current_number: usize,
    in_number: bool,
}

/// An upper bound on the work a scan at `pos` has left; each yield strictly
/// lowers it.
pub open spec fn scan_measure(len: int, pos: int, in_num: bool) -> int {
    2 * (len - pos) + (if in_num {
        1int
    } else {
        0int
    })
}

/// One stride of the scan: starting at `pos` with the pending state (`cur`,
/// `in_num`), consumes bytes until a number is yielded or the data ends, and
/// returns the yielded number with the successor state.
fn node_scan_step(data: &Vec<u8>, pos0: usize, cur0: usize, in0: bool) -> (r: (
    Option<usize>,
    usize,
    usize,
    bool,
))
    requires
        pos0 <= data@.len(),
        !in0 ==> cur0 == 0,
    ensures
        r.1 <= data@.len(),
        !r.3 ==> r.2 == 0,
        ({
            let before = extract_rec(data@.skip(pos0 as int), cur0 as nat, in0);
            let after = extract_rec(data@.skip(r.1 as int), r.2 as nat, r.3);
            &&& (before.len() == 0 ==> r.0 is None && after.len() == 0)
            &&& (before.len() > 0 ==> (r.0 matches Some(v) && v as nat == before[0] && after
                == before.drop_first()))
            &&& (r.0 is Some ==> scan_measure(data@.len() as int, r.1 as int, r.3) < scan_measure(
                data@.len() as int,
                pos0 as int,
                in0,
            ))
            &&& (r.0 is None ==> scan_measure(data@.len() as int, r.1 as int, r.3) <= scan_measure(
                data@.len() as int,
                pos0 as int,
                in0,
            ))
        }),
{
    let mut pos = pos0;
    let mut cur = cur0;
    let mut in_num = in0;
    while pos < data.len()
        invariant
            pos <= data@.len(),
            !in_num ==> cur == 0,
            extract_rec(data@.skip(pos as int), cur as nat, in_num) == extract_rec(
                data@.skip(pos0 as int),
                cur0 as nat,
                in0,
            ),
            scan_measure(data@.len() as int, pos as int, in_num) <= scan_measure(
                data@.len() as int,
                pos0 as int,
                in0,
            ),
        decreases data@.len() - pos,
    {
        let byte = data[pos];
        proof {
            let rem = data@.skip(pos as int);
            assert(rem.len() > 0);
            assert(rem[0] == data@[pos as int]);
            assert(rem.drop_first() =~= data@.skip(pos as int + 1));
        }
        pos = pos + 1;
        if byte == 62 || byte == 60 {
            if in_num {
                proof {
                    let before = extract_rec(data@.skip(pos0 as int), cur0 as nat, in0);
                    assert(before == seq![cur as nat] + extract_rec(
                        data@.skip(pos as int),
                        0,
                        false,
                    ));
                    assert(before[0] == cur as nat);
                    assert(before.drop_first() =~= extract_rec(data@.skip(pos as int), 0, false));
                }
                return (Some(cur), pos, 0, false);
            }
        } else if byte >= 48 && byte <= 57 {
            let d = (byte - 48) as usize;
            if cur <= (usize::MAX - d) / 10 {
                proof {
                    assert(sat10(cur as nat, d as nat) == cur * 10 + d);
                }
                cur = cur * 10 + d;
            } else {
                proof {
                    assert(sat10(cur as nat, d as nat) == usize::MAX as nat);
                }
                cur = usize::MAX;
            }
            in_num = true;
        }
    }
    proof {
        assert(data@.skip(pos as int).len() == 0);
    }
    if in_num {
        proof {
            let before = extract_rec(data@.skip(pos0 as int), cur0 as nat, in0);
            assert(before == seq![cur as nat]);
            assert(before.drop_first() =~= extract_rec(data@.skip(pos as int), 0, false));
        }
        return (Some(cur), pos, 0, false);
    }
    (None, pos, cur, in_num)
}

impl NodeIterator {
    /// The scan position is inside the data, and no number is pending unless
    /// the scan says so.
    pub closed spec fn wf(&self) -> bool {
        self.pos <= self.data@.len() && (!self.in_number ==> self.current_number == 0)
    }

    /// The ids this iterator has yet to yield.
    pub closed spec fn remaining(&self) -> Seq<nat> {
        extract_rec(self.data@.skip(self.pos as int), self.current_number as nat, self.in_number)
    }

    /// An upper bound on the work left; each yield strictly lowers it.
    pub closed spec fn progress(&self) -> int {
        scan_measure(self.data@.len() as int, self.pos as int, self.in_number)
    }

    /// A scan over `data`, positioned at its start.
    fn new(data: Vec<u8>) -> (r: NodeIterator)
        ensures
            r.wf(),
            r.progress() >= 0,
            r.remaining() == extract_nodes(data@),
    {
        let r = NodeIterator { data, pos: 0, current_number: 0, in_number: false };
        proof {
            assert(r.data@.skip(0) =~= r.data@);
        }
        r
    }

    /// Yields the next embedded id, or `None` at the end of the scan.
    pub fn next(&mut self) -> (r: Option<usize>)
        requires
            old(self).wf(),
        ensures
            final(self).wf(),
            final(self).progress() >= 0,
            old(self).remaining().len() == 0 ==> r is None && final(self).remaining().len() == 0,
            old(self).remaining().len() > 0 ==> (r matches Some(v) && v as nat == old(
                self,
            ).remaining()[0] && final(self).remaining() == old(self).remaining().drop_first()),
            r is Some ==> final(self).progress() < old(self).progress(),
            r is None ==> final(self).progress() <= old(self).progress(),
    {
        let (res, pos, cur, in_num) = node_scan_step(
            &self.data,
            self.pos,
            self.current_number,
            self.in_number,
        );
        self.pos = pos;
        self.current_number = cur;
        self.in_number = in_num;
        res
    }
}

impl Walk {
    /// A scan over this walk's traversal bytes that yields each embedded
    /// segment id.
    pub fn extract_node(&self) -> (r: NodeIterator)
        ensures
            r.wf(),
            r.progress() >= 0,
            r.remaining() == extract_nodes(self.unit@),
    {
        NodeIterator::new(vstd::slice::slice_to_vec(self.unit.as_slice()))
    }
}

} // verus!
