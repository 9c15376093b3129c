//! Pages that arrive as SVG text: how they are framed, and documents to try the
//! viewer with.
use crate::text::{
    bytes_at, decimal, find_byte, find_bytes, first_byte, first_occurrence, has_prefix, has_suffix,
    holds, is_digit, law_first_byte, law_first_occurrence, law_parse_decimal,
    lemma_boundary_after_ascii, lemma_decimal_ascii, lemma_encode_concat, lemma_first_byte,
    parse_usize, parsed_unsigned, push_decimal, slice, NEWLINE,
};
use vstd::prelude::*;
use vstd::string::*;
use vstd::utf8::*;

verus! {

/// A page that says how it was delivered.
pub const MOCK_SVG: &'static str = "<svg xmlns=\"http://www.w3.org/2000/svg\" viewBox=\"0 0 595 842\" width=\"595\" height=\"842\"><rect width=\"595\" height=\"842\" fill=\"white\"/><text x=\"50\" y=\"100\" font-family=\"serif\" font-size=\"24\" fill=\"black\">Typst Preview</text><text x=\"50\" y=\"140\" font-family=\"serif\" font-size=\"16\" fill=\"#666666\">Steel Thread — Connected via WebSocket</text><rect x=\"40\" y=\"170\" width=\"515\" height=\"1\" fill=\"#cccccc\"/><text x=\"50\" y=\"200\" font-family=\"serif\" font-size=\"14\" fill=\"#333333\">This SVG was delivered over WebSocket from the preview server.</text><text x=\"50\" y=\"225\" font-family=\"serif\" font-size=\"14\" fill=\"#333333\">In production, tinymist compiles Typst then renders SVG server-side.</text></svg>";

/// What every other page starts with.
pub const PAGE_START: &'static str = "<svg xmlns=\"http://www.w3.org/2000/svg\" viewBox=\"0 0 595 842\" width=\"595\" height=\"842\"><rect width=\"595\" height=\"842\" fill=\"white\"/><text x=\"50\" y=\"100\" font-family=\"serif\" font-size=\"24\" fill=\"black\">";

/// What every other page ends with.
pub const PAGE_END: &'static str = "</text></svg>";

/// Hardcoded SVG for testing the rendering pipeline.
pub fn mock_svg() -> (s: String)
    ensures
        s@ == MOCK_SVG@,
{
    MOCK_SVG.to_owned()
}

/// A page with a line of text.
pub open spec fn page_with(text: Seq<char>) -> Seq<char> {
    PAGE_START@ + text + PAGE_END@
}

/// Generate an SVG tagged with a version number, for testing live updates.
/// Each version produces a distinct SVG.
pub fn mock_svg_versioned(version: u32) -> (s: String)
    ensures
        s@ == page_with("Version "@ + decimal(version as nat)),
{
    let mut s = PAGE_START.to_owned();
    s.append("Version ");
    push_decimal(&mut s, version as u64);
    s.append(PAGE_END);
    assert(s@ =~= page_with("Version "@ + decimal(version as nat)));
    s
}

/// The SVG of a page of a document.
pub open spec fn numbered_page(index: nat, total: nat) -> Seq<char> {
    page_with("Page "@ + decimal(index + 1) + " of "@ + decimal(total))
}

/// A page with a header that gives its index and the number of pages.
pub open spec fn framed_page(index: nat, total: nat, svg: Seq<char>) -> Seq<char> {
    "page:"@ + decimal(index) + ":"@ + decimal(total) + "\n"@ + svg
}

/// Generate a multi-page mock document as page-framed SVG messages.
///
/// Each message has the `page:{index}:{total}\n` prefix that
/// [`parse_page_header`] expects. Page content has distinguishing text.
pub fn mock_svg_multipage(page_count: usize) -> (pages: Vec<String>)
    ensures
        pages@.len() == page_count,
        forall|i: int|
            0 <= i < page_count ==> (#[trigger] pages@[i])@ == framed_page(
                i as nat,
                page_count as nat,
                numbered_page(i as nat, page_count as nat),
            ),
{
    let mut pages: Vec<String> = Vec::new();
    let mut i: usize = 0;
    while i < page_count
        invariant
            i <= page_count,
            pages@.len() == i,
            forall|k: int|
                0 <= k < i ==> (#[trigger] pages@[k])@ == framed_page(
                    k as nat,
                    page_count as nat,
                    numbered_page(k as nat, page_count as nat),
                ),
        decreases page_count - i,
    {
        let mut s = "page:".to_owned();
        push_decimal(&mut s, i as u64);
        s.append(":");
        push_decimal(&mut s, page_count as u64);
        s.append("\n");
        s.append(PAGE_START);
        s.append("Page ");
        push_decimal(&mut s, i as u64 + 1);
        s.append(" of ");
        push_decimal(&mut s, page_count as u64);
        s.append(PAGE_END);
        assert(s@ =~= framed_page(
            i as nat,
            page_count as nat,
            numbered_page(i as nat, page_count as nat),
        ));
        pages.push(s);
        i = i + 1;
    }
    pages
}

/// The place of a page in its document.
#[derive(Clone, Copy, Debug, PartialEq, Eq, Structural)]
pub struct PageHeader {
    pub index: usize,
    pub total: usize,
}

/// What a message that starts with a page header says: the index, the number of
/// pages and what follows the header.
pub open spec fn page_header(bytes: Seq<u8>) -> Option<(nat, nat, Seq<u8>)> {
    let max = usize::MAX as nat;
    if !has_prefix(bytes, "page:".spec_bytes()) {
        None
    } else {
        let end = first_byte(bytes, NEWLINE, 5);
        let colon = first_byte(bytes.take(end), 0x3a, 5);
        if end >= bytes.len() || colon >= end {
            None
        } else {
            let index = parsed_unsigned(bytes.subrange(5, colon), max);
            let total = parsed_unsigned(bytes.subrange(colon + 1, end), max);
            if index is Some && total is Some {
                Some((index->0, total->0, bytes.skip(end + 1)))
            } else {
                None
            }
        }
    }
}

proof fn lemma_page_literal()
    ensures
        "page:".spec_bytes() == seq![0x70u8, 0x61, 0x67, 0x65, 0x3a],
        ":".spec_bytes() == seq![0x3au8],
        "\n".spec_bytes() == seq![NEWLINE],
{
    reveal_strlit("page:");
    reveal_strlit(":");
    reveal_strlit("\n");
    assert("page:".is_ascii() && ":".is_ascii() && "\n".is_ascii());
    is_ascii_spec_bytes("page:");
    is_ascii_spec_bytes(":");
    is_ascii_spec_bytes("\n");
    assert("page:".spec_bytes() =~= seq![0x70u8, 0x61, 0x67, 0x65, 0x3a]);
    assert(":".spec_bytes() =~= seq![0x3au8]);
    assert("\n".spec_bytes() =~= seq![NEWLINE]);
}

/// Parse a `page:{index}:{total}\n` prefix from a server message.
pub fn parse_page_header(text: &str) -> (r: Option<(PageHeader, &str)>)
    ensures
        match r {
            Some((header, svg)) => page_header(text.spec_bytes()) == Some(
                (header.index as nat, header.total as nat, svg.spec_bytes()),
            ),
            None => page_header(text.spec_bytes()) is None,
        },
{
    let bytes = text.as_bytes();
    proof {
        lemma_page_literal();
        encode_utf8_valid_utf8(text@);
        is_char_boundary_start_end_of_seq(bytes@);
    }
    if !bytes_at(bytes, "page:".as_bytes(), 0) {
        return None;
    }
    assert(has_prefix(bytes@, "page:".spec_bytes()));
    assert(bytes@.subrange(0, 5)[4] == bytes@[4]);
    let end = find_byte(bytes, NEWLINE, 5);
    if end == bytes.len() {
        return None;
    }
    let header = vstd::slice::slice_subrange(bytes, 0, end);
    assert(header@ =~= bytes@.take(end as int));
    let colon = find_byte(header, 0x3a, 5);
    if colon == end {
        return None;
    }
    proof {
        assert(header@[colon as int] == bytes@[colon as int]);
        lemma_boundary_after_ascii(bytes@, 4);
        lemma_boundary_after_ascii(bytes@, colon as int);
        lemma_boundary_after_ascii(bytes@, end as int);
    }
    let index = parse_usize(slice(text, 5, colon));
    let total = parse_usize(slice(text, colon + 1, end));
    let svg = slice(text, end + 1, bytes.len());
    assert(svg.spec_bytes() =~= bytes@.skip(end + 1));
    match (index, total) {
        (Some(index), Some(total)) => Some((PageHeader { index, total }, svg)),
        _ => None,
    }
}

/// A framed page is read back as its index, the number of pages and its SVG.
pub proof fn law_page_header_round_trip(index: usize, total: usize, svg: Seq<char>)
    ensures
        page_header(encode_utf8(framed_page(index as nat, total as nat, svg))) == Some(
            (index as nat, total as nat, encode_utf8(svg)),
        ),
{
    let i = decimal(index as nat);
    let t = decimal(total as nat);
    let text = framed_page(index as nat, total as nat, svg);
    let bytes = encode_utf8(text);
    let ib = encode_utf8(i);
    let tb = encode_utf8(t);
    lemma_page_literal();
    lemma_encode_concat("page:"@, i);
    lemma_encode_concat("page:"@ + i, ":"@);
    lemma_encode_concat("page:"@ + i + ":"@, t);
    lemma_encode_concat("page:"@ + i + ":"@ + t, "\n"@);
    lemma_encode_concat("page:"@ + i + ":"@ + t + "\n"@, svg);
    let prefix = "page:".spec_bytes();
    assert(bytes == prefix + ib + ":".spec_bytes() + tb + "\n".spec_bytes() + encode_utf8(svg));
    lemma_decimal_ascii(index as nat);
    lemma_decimal_ascii(total as nat);
    assert(bytes.subrange(0, 5) =~= prefix);
    let colon = (5 + ib.len()) as int;
    let end = (colon + 1 + tb.len()) as int;
    assert(bytes[colon] == 0x3a);
    assert(bytes[end] == NEWLINE);
    assert forall|k: int| 5 <= k < end implies bytes[k] != NEWLINE by {
        if k < colon {
            assert(bytes[k] == ib[k - 5]);
            assert(is_digit(ib[k - 5]));
        } else if k > colon {
            assert(bytes[k] == tb[k - colon - 1]);
            assert(is_digit(tb[k - colon - 1]));
        }
    }
    lemma_first_byte(bytes, NEWLINE, 5, end);
    let header = bytes.take(end);
    assert forall|k: int| 5 <= k < colon implies header[k] != 0x3a by {
        assert(bytes[k] == ib[k - 5]);
        assert(is_digit(ib[k - 5]));
    }
    lemma_first_byte(header, 0x3a, 5, colon);
    assert(bytes.subrange(5, colon) =~= ib);
    assert(bytes.subrange(colon + 1, end) =~= tb);
    assert(bytes.skip(end + 1) =~= encode_utf8(svg));
    law_parse_decimal(index as nat, usize::MAX as nat);
    law_parse_decimal(total as nat, usize::MAX as nat);
}

/// The start of an SVG element.
pub open spec fn holds_svg(bytes: Seq<u8>) -> bool {
    first_occurrence(bytes, "<svg".spec_bytes(), 0) is Some
}

/// What a text message carries: the page of its header, or a document of one
/// page where there is none, as long as there is an SVG element.
pub open spec fn svg_message(bytes: Seq<u8>) -> Option<(nat, nat, Seq<u8>)> {
    match page_header(bytes) {
        Some((index, total, svg)) => if holds_svg(svg) {
            Some((index, total, svg))
        } else {
            None
        },
        None => if holds_svg(bytes) {
            Some((0, 1, bytes))
        } else {
            None
        },
    }
}

/// Parse a single text message into its place and SVG, or nothing for messages
/// without SVG, which are skipped.
pub fn parse_svg_message(text: &str) -> (r: Option<(usize, usize, String)>)
    ensures
        match r {
            Some((index, total, svg)) => svg_message(text.spec_bytes()) == Some(
                (index as nat, total as nat, encode_utf8(svg@)),
            ),
            None => svg_message(text.spec_bytes()) is None,
        },
{
    let (index, total, svg) = match parse_page_header(text) {
        Some((header, svg)) => (header.index, header.total, svg),
        None => (0usize, 1usize, text),
    };
    match find_bytes(svg.as_bytes(), "<svg".as_bytes(), 0) {
        Some(_) => Some((index, total, svg.to_owned())),
        None => None,
    }
}

/// What opens the definitions of glyphs.
pub const GLYPH_DEFS_OPEN: &'static str = "<defs id=\"glyph\">";

/// What closes definitions.
pub const DEFS_CLOSE: &'static str = "</defs>";

/// The text that bytes decode to, with replacement characters for what is no
/// UTF-8.
pub uninterp spec fn lossy(bytes: Seq<u8>) -> Seq<char>;

/// `String::from_utf8_lossy`: a function of the bytes, and the encoded text
/// itself where they are valid UTF-8.
#[verifier::external_body]
fn lossy_text(bytes: &[u8]) -> (s: String)
    ensures
        s@ == lossy(bytes@),
        valid_utf8(bytes@) ==> encode_utf8(s@) == bytes@,
{
    String::from_utf8_lossy(bytes).into_owned()
}

/// An encoded text with definitions inserted after its first tag.
pub open spec fn injected(bytes: Seq<u8>, defs: Seq<u8>) -> Option<Seq<u8>> {
    let close = first_byte(bytes, 0x3e, 0);
    if close < bytes.len() {
        Some(bytes.take(close + 1) + defs + bytes.skip(close + 1))
    } else {
        None
    }
}

/// Insert cached glyph defs into an SVG that had them stripped by the server.
/// Inserts right after the opening `<svg ...>` tag.
pub fn inject_glyph_defs(svg_bytes: &[u8], cached_defs: &str) -> (r: Vec<u8>)
    ensures
        r@ == match injected(encode_utf8(lossy(svg_bytes@)), cached_defs.spec_bytes()) {
            Some(bytes) => bytes,
            None => svg_bytes@,
        },
        valid_utf8(svg_bytes@) ==> r@ == match injected(svg_bytes@, cached_defs.spec_bytes()) {
            Some(bytes) => bytes,
            None => svg_bytes@,
        },
{
    let text = lossy_text(svg_bytes);
    let bytes = text.as_str().as_bytes();
    let close = find_byte(bytes, 0x3e, 0);
    if close == bytes.len() {
        return vstd::slice::slice_to_vec(svg_bytes);
    }
    let mut r = vstd::slice::slice_to_vec(vstd::slice::slice_subrange(bytes, 0, close + 1));
    let mut defs = vstd::slice::slice_to_vec(cached_defs.as_bytes());
    let mut rest = vstd::slice::slice_to_vec(
        vstd::slice::slice_subrange(bytes, close + 1, bytes.len()),
    );
    r.append(&mut defs);
    r.append(&mut rest);
    assert(r@ =~= bytes@.take(close + 1) + cached_defs.spec_bytes() + bytes@.skip(close + 1));
    r
}

/// Inserting nothing changes nothing.
pub proof fn law_inject_nothing(bytes: Seq<u8>)
    ensures
        injected(bytes, Seq::empty()) matches Some(same) ==> same == bytes,
{
    let close = first_byte(bytes, 0x3e, 0);
    if close < bytes.len() {
        lemma_first_byte_bounds(bytes, 0x3e, 0);
        assert(bytes.take(close + 1) + Seq::<u8>::empty() + bytes.skip(close + 1) =~= bytes);
    }
}

proof fn lemma_first_byte_bounds(bytes: Seq<u8>, b: u8, i: int)
    requires
        0 <= i <= bytes.len(),
    ensures
        i <= first_byte(bytes, b, i) <= bytes.len(),
    decreases bytes.len() - i,
{
    if i < bytes.len() && bytes[i] != b {
        lemma_first_byte_bounds(bytes, b, i + 1);
    }
}

/// The definitions of glyphs in an SVG, from the tag that opens them to the one
/// that closes them.
pub open spec fn glyph_defs(bytes: Seq<u8>) -> Option<Seq<u8>> {
    match first_occurrence(bytes, GLYPH_DEFS_OPEN.spec_bytes(), 0) {
        Some(start) => match first_occurrence(bytes, DEFS_CLOSE.spec_bytes(), start) {
            Some(end) => Some(bytes.subrange(start, end + DEFS_CLOSE.spec_bytes().len())),
            None => None,
        },
        None => None,
    }
}

/// What a WebSocket URL says: its host and its port, where it has them; nothing
/// where it is no URL.
pub uninterp spec fn parsed_url(url: Seq<char>) -> Option<(Option<Seq<char>>, Option<u16>)>;

/// An optional text as characters.
pub open spec fn chars_of(s: Option<String>) -> Option<Seq<char>> {
    match s {
        Some(s) => Some(s@),
        None => None,
    }
}

/// `url::Url::parse`, `host_str` and `port`: functions of the text alone.
#[verifier::external_body]
fn parse_url(url: &str) -> (r: Option<(Option<String>, Option<u16>)>)
    ensures
        match r {
            Some((host, port)) => parsed_url(url@) == Some((chars_of(host), port)),
            None => parsed_url(url@) is None,
        },
{
    let parsed = url::Url::parse(url).ok()?;
    Some((parsed.host_str().map(|host| host.to_string()), parsed.port()))
}

/// Why a URL gives no address.
#[derive(Clone, Copy, Debug, PartialEq, Eq, Structural)]
pub enum AddressError {
    NotAUrl,
    NoHost,
}

/// The address of a host and a port, 80 where none is given.
pub open spec fn address_of(host: Seq<char>, port: Option<u16>) -> Seq<char> {
    host + ":"@ + decimal(
        match port {
            Some(port) => port as nat,
            None => 80,
        },
    )
}

/// The address of a host and a port.
pub fn format_address(host: &str, port: Option<u16>) -> (s: String)
    ensures
        s@ == address_of(host@, port),
{
    let mut s = host.to_owned();
    s.append(":");
    let number: u64 = match port {
        Some(port) => port as u64,
        None => 80,
    };
    push_decimal(&mut s, number);
    s
}

/// The address to connect to for a WebSocket URL.
pub fn preview_address(url: &str) -> (r: Result<String, AddressError>)
    ensures
        match parsed_url(url@) {
            None => r == Err::<String, _>(AddressError::NotAUrl),
            Some((None, _)) => r == Err::<String, _>(AddressError::NoHost),
            Some((Some(host), port)) => r matches Ok(address) && address@ == address_of(host, port),
        },
{
    match parse_url(url) {
        Some((Some(host), port)) => Ok(format_address(host.as_str(), port)),
        Some((None, _)) => Err(AddressError::NoHost),
        None => Err(AddressError::NotAUrl),
    }
}

/// Inserted definitions change nothing else: without them the text is what it was.
pub proof fn law_inject_keeps_content(bytes: Seq<u8>, defs: Seq<u8>)
    requires
        injected(bytes, defs) is Some,
    ensures
        ({
            let result = injected(bytes, defs)->0;
            let at = first_byte(bytes, 0x3e, 0) + 1;
            &&& result.subrange(at, at + defs.len()) == defs
            &&& result.take(at) + result.skip(at + defs.len()) == bytes
        }),
{
    lemma_first_byte_bounds(bytes, 0x3e, 0);
    let result = injected(bytes, defs)->0;
    let at = first_byte(bytes, 0x3e, 0) + 1;
    assert(result.subrange(at, at + defs.len()) =~= defs);
    assert(result.take(at) + result.skip(at + defs.len()) =~= bytes);
}

/// A page header is what a message starts with, and what follows it is the SVG.
pub proof fn law_page_header_is_read(bytes: Seq<u8>)
    ensures
        page_header(bytes) matches Some((index, total, svg)) ==> exists|a: Seq<u8>, b: Seq<u8>|
            #[trigger] is_header_of(bytes, a, b, svg) && parsed_unsigned(a, usize::MAX as nat)
                == Some(index) && parsed_unsigned(b, usize::MAX as nat) == Some(total),
{
    if let Some((index, total, svg)) = page_header(bytes) {
        let end = first_byte(bytes, NEWLINE, 5);
        lemma_page_literal();
        law_first_byte(bytes, NEWLINE, 5);
        law_first_byte(bytes.take(end), 0x3a, 5);
        let colon = first_byte(bytes.take(end), 0x3a, 5);
        let a = bytes.subrange(5, colon);
        let b = bytes.subrange(colon + 1, end);
        assert(bytes =~= bytes.subrange(0, 5) + a + seq![bytes[colon]] + b + seq![bytes[end]]
            + svg);
        assert(bytes.take(end)[colon] == bytes[colon]);
        assert(is_header_of(bytes, a, b, svg));
    }
}

/// Whether a message is a page header with two fields, and an SVG.
pub open spec fn is_header_of(bytes: Seq<u8>, a: Seq<u8>, b: Seq<u8>, svg: Seq<u8>) -> bool {
    bytes == "page:".spec_bytes() + a + seq![0x3au8] + b + seq![NEWLINE] + svg
}

/// A message counts only where it has an SVG element. One without a header is the only
/// page of its document, and one with a header the page that this says.
pub proof fn law_svg_messages(bytes: Seq<u8>)
    ensures
        svg_message(bytes) matches Some((_, _, svg)) ==> holds(svg, "<svg".spec_bytes()),
        page_header(bytes) is None && holds(bytes, "<svg".spec_bytes()) ==> svg_message(bytes)
            == Some((0nat, 1nat, bytes)),
        page_header(bytes) matches Some((index, total, svg)) ==> (holds(svg, "<svg".spec_bytes())
            ==> svg_message(bytes) == Some((index, total, svg))),
{
    lemma_holds_svg(bytes);
    if let Some((_, _, svg)) = page_header(bytes) {
        lemma_holds_svg(svg);
    }
}

proof fn lemma_holds_svg(bytes: Seq<u8>)
    ensures
        holds_svg(bytes) == holds(bytes, "<svg".spec_bytes()),
{
    reveal(holds);
    let part = "<svg".spec_bytes();
    law_first_occurrence(bytes, part, 0);
    if let Some(at) = first_occurrence(bytes, part, 0) {
        assert(bytes.subrange(at, at + part.len()) == part);
    }
}

/// Definitions of glyphs stand in the SVG, from the tag that opens them to one that
/// closes them; there are none only where no tag opens them or none closes them.
pub proof fn law_glyph_definitions(bytes: Seq<u8>)
    ensures
        match glyph_defs(bytes) {
            Some(defs) => {
                &&& holds(bytes, defs)
                &&& has_suffix(defs, DEFS_CLOSE.spec_bytes())
                &&& first_occurrence(bytes, GLYPH_DEFS_OPEN.spec_bytes(), 0) matches Some(start)
                &&& has_prefix(bytes.skip(start), defs)
            },
            None => match first_occurrence(bytes, GLYPH_DEFS_OPEN.spec_bytes(), 0) {
                Some(start) => !holds(bytes.skip(start), DEFS_CLOSE.spec_bytes()),
                None => !holds(bytes, GLYPH_DEFS_OPEN.spec_bytes()),
            },
        },
{
    reveal(holds);
    let open = GLYPH_DEFS_OPEN.spec_bytes();
    let close = DEFS_CLOSE.spec_bytes();
    law_first_occurrence(bytes, open, 0);
    if let Some(start) = first_occurrence(bytes, open, 0) {
        law_first_occurrence(bytes, close, start);
        match first_occurrence(bytes, close, start) {
            Some(end) => {
                let defs = bytes.subrange(start, end + close.len());
                assert(start + defs.len() == end + close.len());
                assert(bytes.subrange(start, start + defs.len()) == defs);
                assert(defs.subrange(defs.len() - close.len(), defs.len() as int)
                    =~= bytes.subrange(end, end + close.len()));
                assert(bytes.skip(start).subrange(0, defs.len() as int) =~= defs);
            },
            None => {
                assert forall|at: int|
                    0 <= at && at + close.len() <= bytes.skip(start).len() implies
                    #[trigger] bytes.skip(start).subrange(at, at + close.len()) != close by {
                    assert(bytes.skip(start).subrange(at, at + close.len()) =~= bytes.subrange(
                        start + at,
                        start + at + close.len(),
                    ));
                }
            },
        }
    }
}

/// A URL without a port means the port of HTTP.
pub proof fn law_default_port(host: Seq<char>, port: u16)
    ensures
        address_of(host, None) == address_of(host, Some(80)),
        address_of(host, Some(port)) == host + ":"@ + decimal(port as nat),
{
}

} // verus!
