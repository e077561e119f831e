use vstd::prelude::*;

use crate::misc::GfaError;

verus! {

/// The byte value of the tab character, the field separator of GFA.
pub const TAB_BYTE: u8 = 9;

/// The byte value of the line feed character.
pub const LF_BYTE: u8 = 10;

/// The byte value of the carriage return character.
pub const CR_BYTE: u8 = 13;

/// The byte value of the character `+`.
pub const PLUS_BYTE: u8 = 43;

/// The byte value of the character `-`.
pub const MINUS_BYTE: u8 = 45;

/// The byte value of the character `L`, the tag of a link record.
pub const L_TAG_BYTE: u8 = 76;

/// The byte value of the character `S`, the tag of a segment record.
pub const S_TAG_BYTE: u8 = 83;

/// The first byte of the gzip magic number.
pub const GZIP_MAGIC_0: u8 = 31;

/// The second byte of the gzip magic number.
pub const GZIP_MAGIC_1: u8 = 139;

/// Mathematical image of a link record: two segment names together with
/// the strand sign of each endpoint (`1` for `+`, `-1` for `-`).
pub ghost struct LinkV {
    pub name_a: Seq<u8>,
    pub strand_a: int,
    pub name_b: Seq<u8>,
    pub strand_b: int,
}

/// The Link struct holds the relevant info from a GFA link line: which
/// segments are linked and on which strands.
#[derive(Debug)]
pub struct Link {
    pub name_a: Vec<u8>,
    pub strand_a: i32,
    pub name_b: Vec<u8>,
    pub strand_b: i32,
}

impl View for Link {
    type V = LinkV;

    open spec fn view(&self) -> LinkV {
        LinkV {
            name_a: self.name_a@,
            strand_a: self.strand_a as int,
            name_b: self.name_b@,
            strand_b: self.strand_b as int,
        }
    }
}

impl PartialEq for Link {
    fn eq(&self, other: &Link) -> (r: bool) {
        let names_eq = self.name_a == other.name_a && self.name_b == other.name_b;
        let strands_eq = self.strand_a == other.strand_a && self.strand_b == other.strand_b;
        proof {
            if names_eq {
                assert(self.name_a@ =~= other.name_a@);
                assert(self.name_b@ =~= other.name_b@);
            }
        }
        names_eq && strands_eq
    }
}

impl vstd::std_specs::cmp::PartialEqSpecImpl for Link {
    open spec fn obeys_eq_spec() -> bool {
        true
    }

    open spec fn eq_spec(&self, other: &Link) -> bool {
        self@ == other@
    }
}

/// The strand sign a strand field denotes: `+` means `1`, `-` means `-1`,
/// and any other field is invalid, which `0` stands for.
pub open spec fn strand_of(s: Seq<u8>) -> int {
    if s == seq![PLUS_BYTE] {
        1
    } else if s == seq![MINUS_BYTE] {
        -1
    } else {
        0
    }
}

/// This function converts a strand in byte form (`+` or `-`) to integer
/// form (1 or -1). Returns 0 for other cases.
pub fn strand_str_to_int(strand_str: &[u8]) -> (r: i32)
    ensures
        r as int == strand_of(strand_str@),
{
    if strand_str.len() == 1 && strand_str[0] == PLUS_BYTE {
        proof {
            assert(strand_str@ =~= seq![PLUS_BYTE]);
        }
        1
    } else if strand_str.len() == 1 && strand_str[0] == MINUS_BYTE {
        proof {
            assert(strand_str@ =~= seq![MINUS_BYTE]);
        }
        -1
    } else {
        proof {
            assert(strand_str@ != seq![PLUS_BYTE]) by {
                if strand_str@ == seq![PLUS_BYTE] {
                    assert(strand_str@.len() == 1 && strand_str@[0] == PLUS_BYTE);
                }
            }
            assert(strand_str@ != seq![MINUS_BYTE]) by {
                if strand_str@ == seq![MINUS_BYTE] {
                    assert(strand_str@.len() == 1 && strand_str@[0] == MINUS_BYTE);
                }
            }
        }
        0
    }
}

/// The pieces of `s` between occurrences of the separator byte, in order.
/// There is always one piece more than there are separators, so the result
/// is never empty, and a piece never holds the separator.
pub open spec fn split_on(s: Seq<u8>, sep: u8) -> Seq<Seq<u8>>
    decreases s.len(),
{
    if s.len() == 0 {
        seq![Seq::<u8>::empty()]
    } else if s[0] == sep {
        seq![Seq::<u8>::empty()] + split_on(s.drop_first(), sep)
    } else {
        let rest = split_on(s.drop_first(), sep);
        seq![seq![s[0]] + rest[0]] + rest.skip(1)
    }
}

/// Splitting yields at least one piece, whatever the input.
pub proof fn lemma_split_on_nonempty(s: Seq<u8>, sep: u8)
    ensures
        split_on(s, sep).len() >= 1,
    decreases s.len(),
{
    if s.len() != 0 {
        lemma_split_on_nonempty(s.drop_first(), sep);
    }
}

/// A byte sequence without the separator splits into that one piece.
pub proof fn lemma_split_on_no_sep(s: Seq<u8>, sep: u8)
    requires
        forall|k: int| 0 <= k < s.len() ==> s[k] != sep,
    ensures
        split_on(s, sep) == seq![s],
    decreases s.len(),
{
    if s.len() == 0 {
        assert(s =~= Seq::<u8>::empty());
    } else {
        lemma_split_on_no_sep(s.drop_first(), sep);
        let rest = split_on(s.drop_first(), sep);
        assert(seq![s[0]] + rest[0] =~= s);
        assert(seq![seq![s[0]] + rest[0]] + rest.skip(1) =~= seq![s]);
    }
}

/// Splitting takes off the first piece at the first separator: with `a`
/// separator-free, `a` then the separator then `b` splits into `a`
/// followed by the pieces of `b`.
pub proof fn lemma_split_on_first(a: Seq<u8>, b: Seq<u8>, sep: u8)
    requires
        forall|k: int| 0 <= k < a.len() ==> a[k] != sep,
    ensures
        split_on(a + seq![sep] + b, sep) == seq![a] + split_on(b, sep),
    decreases a.len(),
{
    let s = a + seq![sep] + b;
    if a.len() == 0 {
        assert(s[0] == sep);
        assert(s.drop_first() =~= b);
        assert(a =~= Seq::<u8>::empty());
        assert(seq![Seq::<u8>::empty()] + split_on(b, sep) == seq![a] + split_on(b, sep));
    } else {
        assert(s[0] == a[0] && a[0] != sep);
        assert(s.drop_first() =~= a.drop_first() + seq![sep] + b);
        lemma_split_on_first(a.drop_first(), b, sep);
        let rest = split_on(s.drop_first(), sep);
        assert(rest == seq![a.drop_first()] + split_on(b, sep));
        assert(seq![s[0]] + rest[0] =~= a);
        assert(rest.skip(1) =~= split_on(b, sep));
        assert(seq![seq![s[0]] + rest[0]] + rest.skip(1) =~= seq![a] + split_on(b, sep));
    }
}

/// Splits a byte slice at every occurrence of the separator byte,
/// borrowing each piece from the input.
pub fn split_bytes<'a>(data: &'a [u8], sep: u8) -> (r: Vec<&'a [u8]>)
    ensures
        parts_views(r@) == split_on(data@, sep),
{
    let ghost len = data@.len() as int;
    let mut r: Vec<&'a [u8]> = Vec::new();
    let mut start: usize = 0;
    let mut i: usize = 0;
    proof {
        assert(data@.subrange(0, len) =~= data@);
        assert(parts_views(r@) =~= Seq::<Seq<u8>>::empty());
    }
    while i < data.len()
        invariant
            0 <= start as int <= i as int <= len,
            len == data@.len(),
            forall|k: int| start as int <= k < i as int ==> data@[k] != sep,
            split_on(data@, sep) =~= parts_views(r@) + split_on(
                data@.subrange(start as int, len),
                sep,
            ),
        decreases len - i as int,
    {
        if data[i] == sep {
            let tok = vstd::slice::slice_subrange(data, start, i);
            proof {
                let tail = data@.subrange(i as int + 1, len);
                assert(data@.subrange(start as int, len) =~= tok@ + seq![sep] + tail);
                lemma_split_on_first(tok@, tail, sep);
                assert(parts_views(r@.push(tok)) =~= parts_views(r@) + seq![tok@]);
            }
            r.push(tok);
            start = i + 1;
        }
        i = i + 1;
    }
    let tok = vstd::slice::slice_subrange(data, start, i);
    proof {
        lemma_split_on_no_sep(tok@, sep);
        assert(data@.subrange(start as int, len) == tok@);
        assert(parts_views(r@.push(tok)) =~= parts_views(r@) + seq![tok@]);
    }
    r.push(tok);
    r
}

/// The views of a sequence of byte slices, as a sequence of byte
/// sequences.
pub open spec fn parts_views(parts: Seq<&[u8]>) -> Seq<Seq<u8>> {
    parts.map_values(|p: &[u8]| p@)
}

/// What the name extracted from the tab-delimited parts of a segment line
/// (minus the initial `S` tag) must be: the first part, and a formatting
/// error when no part is there.
pub open spec fn segment_name_of_parts(parts: Seq<Seq<u8>>) -> Result<Seq<u8>, GfaError> {
    if parts.len() >= 1 {
        Ok(parts[0])
    } else {
        Err(GfaError::MissingSegmentName)
    }
}

/// Given the tab-delimited parts of a GFA segment line (minus the initial
/// `S` tag), this function returns the segment name.
pub fn line_parts_to_segment_name(parts: &[&[u8]]) -> (r: Result<Vec<u8>, GfaError>)
    ensures
        match r {
            Ok(name) => segment_name_of_parts(parts_views(parts@)) == Ok::<Seq<u8>, GfaError>(
                name@,
            ),
            Err(e) => segment_name_of_parts(parts_views(parts@)) == Err::<Seq<u8>, GfaError>(e),
        },
{
    if parts.len() >= 1 {
        Ok(vstd::slice::slice_to_vec(parts[0]))
    } else {
        Err(GfaError::MissingSegmentName)
    }
}

/// What the tab-delimited parts of a GFA link line (minus the initial `L`
/// tag) denote: the first four parts are the two endpoints, each a name
/// and a strand; fewer than four parts, or a strand field that is neither
/// `+` nor `-`, is a formatting error.
pub open spec fn link_of_parts(parts: Seq<Seq<u8>>) -> Result<LinkV, GfaError> {
    if parts.len() < 4 {
        Err(GfaError::MissingLinkField)
    } else if strand_of(parts[1]) == 0 || strand_of(parts[3]) == 0 {
        Err(GfaError::InvalidStrand)
    } else {
        Ok(
            LinkV {
                name_a: parts[0],
                strand_a: strand_of(parts[1]),
                name_b: parts[2],
                strand_b: strand_of(parts[3]),
            },
        )
    }
}

/// Given the tab-delimited parts of a GFA link line (minus the initial `L`
/// tag), this function returns a Link struct.
pub fn line_parts_to_link(parts: &[&[u8]]) -> (r: Result<Link, GfaError>)
    ensures
        match r {
            Ok(link) => link_of_parts(parts_views(parts@)) == Ok::<LinkV, GfaError>(link@),
            Err(e) => link_of_parts(parts_views(parts@)) == Err::<LinkV, GfaError>(e),
        },
{
    if parts.len() < 4 {
        return Err(GfaError::MissingLinkField);
    }
    let strand_a = strand_str_to_int(parts[1]);
    let strand_b = strand_str_to_int(parts[3]);
    if strand_a == 0 || strand_b == 0 {
        return Err(GfaError::InvalidStrand);
    }
    Ok(
        Link {
            name_a: vstd::slice::slice_to_vec(parts[0]),
            strand_a,
            name_b: vstd::slice::slice_to_vec(parts[2]),
            strand_b,
        },
    )
}

/// What one line of GFA text holds once parsed: a segment name, a link, or
/// nothing, for the line kinds this tool does not consult.
pub ghost enum Record {
    Segment(Seq<u8>),
    Link(LinkV),
    Skip,
}

/// A line with its trailing carriage return, if any, taken off, as a
/// line-oriented reader does on files with Windows line endings.
pub open spec fn strip_cr(line: Seq<u8>) -> Seq<u8> {
    if line.len() > 0 && line.last() == CR_BYTE {
        line.drop_last()
    } else {
        line
    }
}

/// What one line of GFA text denotes. Only lines whose first tab-delimited
/// field is exactly `S` or `L` are interpreted; every other line is
/// skipped, a deliberately permissive policy towards unknown record kinds.
pub open spec fn line_record(line: Seq<u8>) -> Result<Record, GfaError> {
    let fields = split_on(strip_cr(line), TAB_BYTE);
    if fields[0] == seq![S_TAG_BYTE] {
        match segment_name_of_parts(fields.drop_first()) {
            Ok(name) => Ok(Record::Segment(name)),
            Err(e) => Err(e),
        }
    } else if fields[0] == seq![L_TAG_BYTE] {
        match link_of_parts(fields.drop_first()) {
            Ok(link) => Ok(Record::Link(link)),
            Err(e) => Err(e),
        }
    } else {
        Ok(Record::Skip)
    }
}

/// The segment names and links that a sequence of lines holds, in input
/// order, or the formatting error of the first malformed line.
pub open spec fn parse_records(lines: Seq<Seq<u8>>) -> Result<
    (Seq<Seq<u8>>, Seq<LinkV>),
    GfaError,
>
    decreases lines.len(),
{
    if lines.len() == 0 {
        Ok((Seq::empty(), Seq::empty()))
    } else {
        match parse_records(lines.drop_last()) {
            Err(e) => Err(e),
            Ok(acc) => match line_record(lines.last()) {
                Err(e) => Err(e),
                Ok(Record::Segment(name)) => Ok((acc.0.push(name), acc.1)),
                Ok(Record::Link(link)) => Ok((acc.0, acc.1.push(link))),
                Ok(Record::Skip) => Ok(acc),
            },
        }
    }
}

/// The segment names and links of a whole GFA text, read line by line.
pub open spec fn gfa_records(text: Seq<u8>) -> Result<(Seq<Seq<u8>>, Seq<LinkV>), GfaError> {
    parse_records(split_on(text, LF_BYTE))
}

/// Whether the data begins with the two gzip magic bytes.
pub open spec fn gzip_magic(data: Seq<u8>) -> bool {
    data.len() >= 2 && data[0] == GZIP_MAGIC_0 && data[1] == GZIP_MAGIC_1
}

/// This function returns true if the data appears to be gzipped (based on
/// its first two bytes) and false if not.
pub fn is_file_gzipped(data: &[u8]) -> (r: bool)
    ensures
        r == gzip_magic(data@),
{
    data.len() >= 2 && data[0] == GZIP_MAGIC_0 && data[1] == GZIP_MAGIC_1
}

/// The bytes that a gzip stream decompresses to, a function of the
/// compressed bytes alone, or nothing where they are not a well-formed
/// gzip stream.
pub uninterp spec fn gunzip_of(data: Seq<u8>) -> Option<Seq<u8>>;

/// Relies on `flate2::read::GzDecoder`: reading the decoder to the end
/// yields the decompressed bytes, which depend on the compressed bytes
/// alone, and fails where they are not a well-formed gzip stream.
#[verifier::external_body]
fn gunzip(data: &[u8]) -> (r: Option<Vec<u8>>)
    ensures
        match r {
            Some(text) => gunzip_of(data@) == Some(text@),
            None => gunzip_of(data@) == None::<Seq<u8>>,
        },
{
    let mut decoder = flate2::read::GzDecoder::new(data);
    let mut out = Vec::new();
    match std::io::Read::read_to_end(&mut decoder, &mut out) {
        Ok(_) => Some(out),
        Err(_) => None,
    }
}

/// What loading GFA data comes to: data that carries the gzip magic is
/// decompressed first (failure to decompress is an error of its own), and
/// the records are read from the resulting text.
pub open spec fn load_result(data: Seq<u8>) -> Result<(Seq<Seq<u8>>, Seq<LinkV>), GfaError> {
    if gzip_magic(data) {
        match gunzip_of(data) {
            Some(text) => gfa_records(text),
            None => Err(GfaError::BadGzip),
        }
    } else {
        gfa_records(data)
    }
}

/// A formatting error in a prefix of the lines settles the whole parse:
/// nothing past the first malformed line is consulted.
pub proof fn lemma_parse_records_err_extends(lines: Seq<Seq<u8>>, j: int)
    requires
        0 <= j <= lines.len(),
        parse_records(lines.take(j)) is Err,
    ensures
        parse_records(lines) == parse_records(lines.take(j)),
    decreases lines.len() - j,
{
    if j == lines.len() {
        assert(lines.take(j) =~= lines);
    } else {
        assert(lines.take(j + 1).drop_last() =~= lines.take(j));
        assert(parse_records(lines.take(j + 1)) == parse_records(lines.take(j)));
        lemma_parse_records_err_extends(lines, j + 1);
    }
}

/// The lines with the blank ones left out, order kept.
pub open spec fn drop_blank_lines(lines: Seq<Seq<u8>>) -> Seq<Seq<u8>>
    decreases lines.len(),
{
    if lines.len() == 0 {
        lines
    } else if lines.last().len() == 0 {
        drop_blank_lines(lines.drop_last())
    } else {
        drop_blank_lines(lines.drop_last()).push(lines.last())
    }
}

/// Law: blank lines among the records do not affect what is read — the
/// lines with the blank ones stripped parse to the same result.
pub proof fn lemma_blank_lines_ignored(lines: Seq<Seq<u8>>)
    ensures
        parse_records(drop_blank_lines(lines)) == parse_records(lines),
    decreases lines.len(),
{
    if lines.len() > 0 {
        let prefix = lines.drop_last();
        lemma_blank_lines_ignored(prefix);
        if lines.last().len() == 0 {
            assert(strip_cr(lines.last()) == lines.last());
            assert(split_on(lines.last(), TAB_BYTE) == seq![Seq::<u8>::empty()]);
            assert(seq![Seq::<u8>::empty()][0] == Seq::<u8>::empty());
            assert(Seq::<u8>::empty() != seq![S_TAG_BYTE] && Seq::<u8>::empty() != seq![
                L_TAG_BYTE,
            ]) by {
                assert(seq![S_TAG_BYTE].len() == 1 && seq![L_TAG_BYTE].len() == 1);
            }
            assert(line_record(lines.last()) == Ok::<Record, GfaError>(Record::Skip));
        } else {
            let kept = drop_blank_lines(lines);
            assert(kept == drop_blank_lines(prefix).push(lines.last()));
            assert(kept.len() > 0);
            assert(kept.drop_last() =~= drop_blank_lines(prefix));
            assert(kept.last() == lines.last());
        }
    }
}

/// The views of a sequence of owned byte vectors, as a sequence of byte
/// sequences.
pub open spec fn names_views(names: Seq<Vec<u8>>) -> Seq<Seq<u8>> {
    names.map_values(|n: Vec<u8>| n@)
}

/// The views of a sequence of links.
pub open spec fn links_views(links: Seq<Link>) -> Seq<LinkV> {
    links.map_values(|l: Link| l@)
}

/// Reads GFA text line by line and collects the segment names and the
/// links, in input order, or reports the formatting error of the first
/// malformed line.
pub fn load_gfa_text(text: &[u8]) -> (r: Result<(Vec<Vec<u8>>, Vec<Link>), GfaError>)
    ensures
        match r {
            Ok(out) => gfa_records(text@) == Ok::<(Seq<Seq<u8>>, Seq<LinkV>), GfaError>(
                (names_views(out.0@), links_views(out.1@)),
            ),
            Err(e) => gfa_records(text@) == Err::<(Seq<Seq<u8>>, Seq<LinkV>), GfaError>(e),
        },
{
    let lines = split_bytes(text, LF_BYTE);
    let ghost lines_v = parts_views(lines@);
    let mut segments: Vec<Vec<u8>> = Vec::new();
    let mut links: Vec<Link> = Vec::new();
    let mut j: usize = 0;
    proof {
        assert(lines_v.take(0) =~= Seq::<Seq<u8>>::empty());
        assert(names_views(segments@) =~= Seq::<Seq<u8>>::empty());
        assert(links_views(links@) =~= Seq::<LinkV>::empty());
    }
    while j < lines.len()
        invariant
            0 <= j as int <= lines@.len(),
            lines_v == parts_views(lines@),
            lines_v == split_on(text@, LF_BYTE),
            parse_records(lines_v.take(j as int)) == Ok::<(Seq<Seq<u8>>, Seq<LinkV>), GfaError>(
                (names_views(segments@), links_views(links@)),
            ),
        decreases lines@.len() - j as int,
    {
        let ghost pre_segments = segments@;
        let ghost pre_links = links@;
        let line: &[u8] = lines[j];
        proof {
            assert(line@ == lines_v[j as int]);
            assert(lines_v.take(j as int + 1).drop_last() =~= lines_v.take(j as int));
            assert(lines_v.take(j as int + 1).last() == lines_v[j as int]);
        }
        let stripped: &[u8] = if line.len() > 0 && line[line.len() - 1] == CR_BYTE {
            vstd::slice::slice_subrange(line, 0, line.len() - 1)
        } else {
            line
        };
        proof {
            assert(stripped@ =~= strip_cr(line@));
        }
        let fields = split_bytes(stripped, TAB_BYTE);
        let ghost fields_v = split_on(strip_cr(line@), TAB_BYTE);
        proof {
            lemma_split_on_nonempty(stripped@, TAB_BYTE);
            assert(fields@.len() == fields_v.len());
        }
        let tag: &[u8] = fields[0];
        proof {
            assert(tag@ == fields_v[0]);
        }
        if tag.len() == 1 && tag[0] == S_TAG_BYTE {
            proof {
                assert(tag@ =~= seq![S_TAG_BYTE]);
            }
            let rest = vstd::slice::slice_subrange(fields.as_slice(), 1, fields.len());
            proof {
                assert(parts_views(rest@) =~= fields_v.drop_first());
            }
            match line_parts_to_segment_name(rest) {
                Ok(name) => {
                    proof {
                        assert(line_record(lines_v[j as int]) == Ok::<Record, GfaError>(
                            Record::Segment(name@),
                        ));
                    }
                    segments.push(name);
                    proof {
                        assert(names_views(segments@) =~= names_views(pre_segments).push(name@));
                    }
                },
                Err(e) => {
                    proof {
                        assert(line_record(lines_v[j as int]) == Err::<Record, GfaError>(e));
                        assert(parse_records(lines_v.take(j as int + 1)) == Err::<
                            (Seq<Seq<u8>>, Seq<LinkV>),
                            GfaError,
                        >(e));
                        lemma_parse_records_err_extends(lines_v, j as int + 1);
                    }
                    return Err(e);
                },
            }
        } else if tag.len() == 1 && tag[0] == L_TAG_BYTE {
            proof {
                assert(tag@ =~= seq![L_TAG_BYTE]);
                assert(tag@ != seq![S_TAG_BYTE]) by {
                    if tag@ == seq![S_TAG_BYTE] {
                        assert(tag@[0] == S_TAG_BYTE);
                    }
                }
            }
            let rest = vstd::slice::slice_subrange(fields.as_slice(), 1, fields.len());
            proof {
                assert(parts_views(rest@) =~= fields_v.drop_first());
            }
            match line_parts_to_link(rest) {
                Ok(link) => {
                    proof {
                        assert(line_record(lines_v[j as int]) == Ok::<Record, GfaError>(
                            Record::Link(link@),
                        ));
                    }
                    links.push(link);
                    proof {
                        assert(links_views(links@) =~= links_views(pre_links).push(
                            links@.last()@,
                        ));
                    }
                },
                Err(e) => {
                    proof {
                        assert(line_record(lines_v[j as int]) == Err::<Record, GfaError>(e));
                        assert(parse_records(lines_v.take(j as int + 1)) == Err::<
                            (Seq<Seq<u8>>, Seq<LinkV>),
                            GfaError,
                        >(e));
                        lemma_parse_records_err_extends(lines_v, j as int + 1);
                    }
                    return Err(e);
                },
            }
        } else {
            proof {
                assert(tag@ != seq![S_TAG_BYTE]) by {
                    if tag@ == seq![S_TAG_BYTE] {
                        assert(tag@.len() == 1 && tag@[0] == S_TAG_BYTE);
                    }
                }
                assert(tag@ != seq![L_TAG_BYTE]) by {
                    if tag@ == seq![L_TAG_BYTE] {
                        assert(tag@.len() == 1 && tag@[0] == L_TAG_BYTE);
                    }
                }
                assert(line_record(lines_v[j as int]) == Ok::<Record, GfaError>(Record::Skip));
            }
        }
        j = j + 1;
    }
    proof {
        assert(lines_v.take(j as int) =~= lines_v);
    }
    Ok((segments, links))
}

/// This function reads GFA data and returns two vectors: segment names and
/// links. Data that begins with the gzip magic bytes is decompressed
/// before the records are read.
pub fn load_gfa(data: &[u8]) -> (r: Result<(Vec<Vec<u8>>, Vec<Link>), GfaError>)
    ensures
        match r {
            Ok(out) => load_result(data@) == Ok::<(Seq<Seq<u8>>, Seq<LinkV>), GfaError>(
                (names_views(out.0@), links_views(out.1@)),
            ),
            Err(e) => load_result(data@) == Err::<(Seq<Seq<u8>>, Seq<LinkV>), GfaError>(e),
        },
{
    if is_file_gzipped(data) {
        match gunzip(data) {
            Some(text) => load_gfa_text(text.as_slice()),
            None => Err(GfaError::BadGzip),
        }
    } else {
        load_gfa_text(data)
    }
}

} // verus!
