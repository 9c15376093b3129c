//! The wire protocol, image decoding and the page table.
use std::collections::HashSet;
use std::sync::Arc;
use zed_parts::typst_viewer::decode::{
    decode_page, image_from_pixels, swap_rgba_to_bgra, DecodeError, RenderImage,
};
use zed_parts::typst_viewer::image_cache::{lookup_for_index, ImageCache, PageImage};
use zed_parts::typst_viewer::page_table::{PageSize, PageTable};
use zed_parts::typst_viewer::protocol::{
    parse_frame, parse_image_header, ClientMessage, ContentId, Encoding, Frame, FrameError,
    ImageHeaderError, TableEntryDelta, MAX_FRAME_BYTES, SUBPROTOCOL,
};
use zed_parts::typst_viewer::scale::numbers_equal;

const ID: &str = "0123456789abcdef0123456789abcdef";

fn image_frame(header: &str, payload: &[u8]) -> Vec<u8> {
    let mut frame = header.as_bytes().to_vec();
    frame.push(b'\n');
    frame.extend_from_slice(payload);
    frame
}

fn id(n: u128) -> ContentId {
    ContentId::from_str(&format!("{n:032x}")).unwrap()
}

fn size(width: f32, height: f32) -> PageSize {
    PageSize { width: width.to_bits(), height: height.to_bits() }
}

fn delta(index: usize, wh: Option<(f32, f32)>, content: Option<u128>) -> TableEntryDelta {
    TableEntryDelta {
        index,
        width: wh.map(|(w, _)| w.to_bits()),
        height: wh.map(|(_, h)| h.to_bits()),
        content: content.map(id),
    }
}

fn test_image() -> Arc<RenderImage> {
    Arc::new(decode_page(&[0, 0, 0, 255], 1, 1, Encoding::Raw, 2.0f32.to_bits()).unwrap())
}

fn png_of(width: u32, height: u32, bytes: Vec<u8>) -> Vec<u8> {
    let mut png = Vec::new();
    let source =
        image::ImageBuffer::<image::Rgba<u8>, Vec<u8>>::from_raw(width, height, bytes).unwrap();
    image::DynamicImage::ImageRgba8(source)
        .write_to(&mut std::io::Cursor::new(&mut png), image::ImageFormat::Png)
        .unwrap();
    png
}

#[test]
fn raw_decode_swaps_channels_and_keeps_alpha() {
    // One opaque pixel: R=1, G=2, B=3, A=255.
    let payload = vec![1, 2, 3, 255];
    let image = decode_page(&payload, 1, 1, Encoding::Raw, 2.0f32.to_bits()).unwrap();
    assert_eq!(image.width, 1);
    assert_eq!(image.pixels, vec![3, 2, 1, 255]);
    assert_eq!(image.scale_factor, 2.0f32.to_bits());

    // Swapping twice is the identity, which is the property that keeps the
    // conversion honest.
    let mut roundtrip = payload.clone();
    swap_rgba_to_bgra(&mut roundtrip);
    assert_eq!(roundtrip, vec![3, 2, 1, 255]);
    swap_rgba_to_bgra(&mut roundtrip);
    assert_eq!(roundtrip, payload);
}

#[test]
fn raw_decode_rejects_a_payload_that_contradicts_the_dimensions() {
    assert!(decode_page(&[0; 4], 2, 2, Encoding::Raw, 1.0f32.to_bits()).is_err());
}

#[test]
fn png_decode_round_trips() {
    let png = png_of(2, 2, vec![9; 16]);
    let image = decode_page(&png, 2, 2, Encoding::Png, 1.0f32.to_bits()).unwrap();
    assert_eq!(image.width, 2);
}

#[test]
fn png_pixels_are_swapped_like_raw_ones() {
    let png = png_of(2, 1, vec![1, 2, 3, 4, 5, 6, 7, 8]);
    let image = decode_page(&png, 2, 1, Encoding::Png, 1.0f32.to_bits()).unwrap();
    assert_eq!((image.width, image.height), (2, 1));
    assert_eq!(image.pixels, vec![3, 2, 1, 4, 7, 6, 5, 8]);
}

#[test]
fn png_decode_rejects_dimension_mismatch() {
    let png = png_of(2, 2, vec![9; 16]);
    assert!(decode_page(&png, 4, 4, Encoding::Png, 1.0f32.to_bits()).is_err());
    assert!(matches!(
        decode_page(&png, 4, 4, Encoding::Png, 1.0f32.to_bits()),
        Err(DecodeError::PngSize(2, 2))
    ));
}

#[test]
fn decode_errors_name_their_cause() {
    assert!(matches!(
        decode_page(b"no png", 1, 1, Encoding::Png, 0),
        Err(DecodeError::Png(_))
    ));
    assert!(matches!(
        decode_page(&[0; 4], 2, 2, Encoding::Raw, 0),
        Err(DecodeError::Dimensions)
    ));
    assert!(image_from_pixels(vec![0; 8], 1, 2, 0).is_some());
    assert!(image_from_pixels(vec![0; 7], 1, 2, 0).is_none());
}

#[test]
fn full_snapshot_populates_geometry_and_content() {
    let mut table = PageTable::default();
    let result = table.apply(
        2,
        true,
        &[
            delta(0, Some((595.0, 842.0)), Some(1)),
            delta(1, Some((595.0, 842.0)), Some(2)),
        ],
    );

    assert_eq!(result.total, 2);
    assert!(result.total_changed);
    assert_eq!(table.len(), 2);
    assert_eq!(table.content_at(1), Some(id(2)));
}

#[test]
fn content_only_delta_preserves_geometry() {
    // The regression that would clear every page's size on each keystroke.
    let mut table = PageTable::default();
    table.apply(1, true, &[delta(0, Some((595.0, 842.0)), Some(1))]);

    let result = table.apply(1, false, &[delta(0, None, Some(9))]);
    assert_eq!(table.get(0).unwrap().size, size(595.0, 842.0));
    assert_eq!(table.content_at(0), Some(id(9)));
    assert!(result.content_moved);
    assert!(result.geometry_changed.as_slice().is_empty());
    assert!(!result.total_changed);
}

#[test]
fn geometry_change_is_reported_for_remeasure() {
    let mut table = PageTable::default();
    table.apply(1, true, &[delta(0, Some((595.0, 842.0)), Some(1))]);

    let result = table.apply(1, false, &[delta(0, Some((200.0, 300.0)), None)]);
    assert_eq!(result.geometry_changed.as_slice(), &[0]);
    assert!(!result.content_moved);
}

#[test]
fn shrink_truncates() {
    let mut table = PageTable::default();
    table.apply(
        3,
        true,
        &[
            delta(0, Some((1.0, 1.0)), Some(1)),
            delta(1, Some((1.0, 1.0)), Some(2)),
            delta(2, Some((1.0, 1.0)), Some(3)),
        ],
    );

    let result = table.apply(1, false, &[]);
    assert_eq!(table.len(), 1);
    assert!(result.total_changed);
    assert_eq!(table.content_at(1), None);
}

#[test]
fn find_content_prefers_the_nearest_match() {
    // Duplicate ids are real (blank pages), so the first match would
    // teleport the viewport to the first blank page on every edit.
    let mut table = PageTable::default();
    table.apply(
        5,
        true,
        &[
            delta(0, Some((1.0, 1.0)), Some(7)),
            delta(1, Some((1.0, 1.0)), Some(1)),
            delta(2, Some((1.0, 1.0)), Some(2)),
            delta(3, Some((1.0, 1.0)), Some(7)),
            delta(4, Some((1.0, 1.0)), Some(3)),
        ],
    );

    assert_eq!(table.find_content(id(7), 3), Some(3));
    assert_eq!(table.find_content(id(7), 0), Some(0));
    assert_eq!(table.find_content(id(99), 0), None);
}

#[test]
fn keeps_showing_the_previous_render_while_the_next_decodes() {
    let mut table = PageTable::default();
    let mut images = ImageCache::default();
    let scale = 2.0f32.to_bits();

    table.apply(1, true, &[delta(0, Some((595.0, 842.0)), Some(1))]);
    images.insert(id(1), test_image(), scale);
    table.record_displayed(0, id(1));
    assert!(matches!(
        lookup_for_index(&table, &images, 0, scale),
        PageImage::Current(_)
    ));

    // Keystroke: the table moves to a new id whose image has not decoded.
    table.apply(1, false, &[delta(0, None, Some(2))]);
    assert!(
        matches!(
            lookup_for_index(&table, &images, 0, scale),
            PageImage::Stale(_)
        ),
        "must keep drawing the old page, not flash white"
    );

    // The replacement lands.
    images.insert(id(2), test_image(), scale);
    table.record_displayed(0, id(2));
    assert!(matches!(
        lookup_for_index(&table, &images, 0, scale),
        PageImage::Current(_)
    ));
}

#[test]
fn a_page_never_drawn_is_missing_not_stale() {
    // The fallback must not invent content for a page that has never had an
    // image: that is a genuine placeholder.
    let mut table = PageTable::default();
    let images = ImageCache::default();
    table.apply(1, true, &[delta(0, Some((595.0, 842.0)), Some(1))]);

    assert!(matches!(
        lookup_for_index(&table, &images, 0, 2.0f32.to_bits()),
        PageImage::Missing
    ));
}

#[test]
fn ids_in_use_covers_the_fallback_so_it_is_not_evicted() {
    // Retention must keep the image an index is *actually showing*, or the
    // fallback has nothing to fall back to.
    let mut table = PageTable::default();
    table.apply(1, true, &[delta(0, Some((595.0, 842.0)), Some(1))]);
    table.record_displayed(0, id(1));
    table.apply(1, false, &[delta(0, None, Some(2))]);

    let ids = table.ids_in_use(&vec![0]);
    assert!(ids.contains(&id(1)), "the displayed image must be retained");
    assert!(ids.contains(&id(2)), "the incoming image must be retained");
}

#[test]
fn a_pagebreak_shift_moves_content_without_touching_geometry() {
    let mut table = PageTable::default();
    table.apply(
        2,
        true,
        &[
            delta(0, Some((595.0, 842.0)), Some(1)),
            delta(1, Some((595.0, 842.0)), Some(2)),
        ],
    );

    // Insert a page at the front: ids move, geometry does not.
    let result = table.apply(
        3,
        false,
        &[
            delta(0, None, Some(7)),
            delta(1, None, Some(1)),
            delta(2, Some((595.0, 842.0)), Some(2)),
        ],
    );

    assert!(result.content_moved);
    assert!(result.total_changed);
    assert_eq!(table.content_at(1), Some(id(1)));
    assert!(
        !result.geometry_changed.as_slice().contains(&0)
            && !result.geometry_changed.as_slice().contains(&1),
        "a shift must not remeasure pages the list already sized: {:?}",
        result.geometry_changed.as_slice()
    );
}

#[test]
fn unknown_pages_are_a4_until_told_otherwise() {
    let mut table = PageTable::default();
    table.apply(1, false, &[]);
    assert_eq!(table.get(0).unwrap().size, size(595.0, 842.0));
    assert_eq!(table.content_at(0), None);
    assert!(table.get(1).is_none());
}

#[test]
fn entries_beyond_the_total_are_ignored() {
    let mut table = PageTable::default();
    let result = table.apply(1, false, &[delta(3, Some((1.0, 1.0)), Some(1))]);
    assert_eq!(table.len(), 1);
    assert!(!result.content_moved);
    assert!(result.geometry_changed.as_slice().is_empty());
}

#[test]
fn retention_keeps_what_is_held_and_drops_the_rest() {
    let mut images = ImageCache::default();
    let scale = 1.0f32.to_bits();
    images.insert(id(1), test_image(), scale);
    images.insert(id(2), test_image(), scale);
    assert_eq!(images.resident_bytes(), 8);
    // The same content again replaces its predecessor.
    images.insert(id(2), test_image(), scale);
    assert_eq!(images.resident_bytes(), 8);
    let mut held = HashSet::new();
    held.insert(2u128);
    images.retain_held(&held);
    assert_eq!(images.resident_bytes(), 4);
    assert!(matches!(images.lookup(Some(id(1)), scale), PageImage::Missing));
    assert!(matches!(images.lookup(Some(id(2)), scale), PageImage::Current(_)));
    assert!(matches!(
        images.lookup(Some(id(2)), 2.0f32.to_bits()),
        PageImage::Stale(_)
    ));
    images.mark_failed(id(3));
    assert!(matches!(images.lookup(Some(id(3)), scale), PageImage::Failed));
    assert!(matches!(images.lookup(None, scale), PageImage::Missing));
}

#[test]
fn scales_compare_as_numbers() {
    assert!(numbers_equal(1.5f32.to_bits(), 1.5f32.to_bits()));
    assert!(numbers_equal(0.0f32.to_bits(), (-0.0f32).to_bits()));
    assert!(!numbers_equal(1.0f32.to_bits(), 2.0f32.to_bits()));
    assert!(!numbers_equal(f32::NAN.to_bits(), f32::NAN.to_bits()));
}

#[test]
fn parses_a_raw_image_header() {
    let payload = vec![0u8; 3 * 5 * 4];
    let frame = image_frame(&format!("image:{ID}:3:5:2:raw"), &payload);

    let header = match parse_frame(&frame).unwrap().unwrap() {
        Frame::Image(header) => header,
        _ => panic!("expected an image"),
    };
    assert_eq!(header.content.to_string(), ID);
    assert_eq!((header.px_width, header.px_height), (3, 5));
    assert_eq!(header.scale.parse::<f32>().unwrap(), 2.0);
    assert_eq!(header.encoding, Encoding::Raw);
    assert_eq!(header.payload.len(), payload.len());
}

#[test]
fn rejects_a_raw_payload_that_contradicts_the_header() {
    // Would be an out-of-bounds read or a garbled image downstream.
    let frame = image_frame(&format!("image:{ID}:3:5:2:raw"), &[0u8; 8]);
    assert!(parse_frame(&frame).is_err());
}

#[test]
fn believes_the_header_scale_not_the_current_one() {
    // The in-flight case: this arrives after the client has moved to 2x.
    let frame = image_frame(&format!("image:{ID}:1:1:1:raw"), &[0u8; 4]);
    let header = match parse_frame(&frame).unwrap().unwrap() {
        Frame::Image(header) => header,
        _ => panic!("expected an image"),
    };
    assert_eq!(header.scale.parse::<f32>().unwrap(), 1.0, "the header is authoritative");
}

#[test]
fn json_frames_are_told_from_their_bodies() {
    let frame = b"pages\n{\"total\":1}";
    match parse_frame(frame).unwrap().unwrap() {
        Frame::Pages { body } => assert_eq!(&frame[body], b"{\"total\":1}"),
        other => panic!("{other:?}"),
    }
    let frame = b"error\n{\"msg\":\"a\\nb\"}";
    match parse_frame(frame).unwrap().unwrap() {
        Frame::Error { body } => assert_eq!(body, 6..frame.len()),
        other => panic!("{other:?}"),
    }
}

#[test]
fn the_same_snapshot_again_changes_nothing() {
    let mut table = PageTable::default();
    let pages = [delta(0, Some((200.0, 300.0)), Some(1)), delta(1, Some((595.0, 842.0)), Some(2))];
    let first = table.apply(2, true, &pages);
    assert!(first.total_changed && first.content_moved);
    assert_eq!(first.geometry_changed.as_slice(), &[0]);
    let again = table.apply(2, true, &pages);
    assert!(!again.total_changed && !again.content_moved);
    assert!(again.geometry_changed.as_slice().is_empty());
    // Pages that a snapshot does not mention are unknown again.
    let bare = table.apply(2, true, &[]);
    assert!(!bare.total_changed && bare.content_moved);
    assert_eq!(bare.geometry_changed.as_slice(), &[0]);
    assert_eq!(table.len(), 2);
    assert!(!table.apply(2, true, &[]).total_changed);
}

#[test]
fn unknown_frames_are_ignored_not_fatal() {
    assert!(parse_frame(b"something-new\n{}").unwrap().is_none());
}

#[test]
fn rejects_a_frame_with_no_header() {
    assert!(parse_frame(b"no newline here").is_err());
    assert!(matches!(parse_frame(b"no newline here"), Err(FrameError::NoTerminator)));
}

#[test]
fn frames_fail_for_distinct_reasons() {
    assert!(matches!(parse_frame(b"\xff\xfe\n"), Err(FrameError::HeaderNotUtf8)));
    let too_large = vec![0u8; MAX_FRAME_BYTES + 1];
    assert!(matches!(parse_frame(&too_large), Err(FrameError::TooLarge)));
    let cases = [
        ("image:xyz", ImageHeaderError::ContentId),
        ("image:0123456789abcdef0123456789abcdef", ImageHeaderError::MissingWidth),
        ("image:0123456789abcdef0123456789abcdef:w", ImageHeaderError::Width),
        ("image:0123456789abcdef0123456789abcdef:1", ImageHeaderError::MissingHeight),
        ("image:0123456789abcdef0123456789abcdef:1:h", ImageHeaderError::Height),
        ("image:0123456789abcdef0123456789abcdef:1:1", ImageHeaderError::MissingScale),
        ("image:0123456789abcdef0123456789abcdef:1:1:x", ImageHeaderError::Scale),
        ("image:0123456789abcdef0123456789abcdef:1:1:2", ImageHeaderError::MissingEncoding),
        ("image:0123456789abcdef0123456789abcdef:1:1:2:gif", ImageHeaderError::Encoding),
        ("image:0123456789abcdef0123456789abcdef:1:1:2:raw", ImageHeaderError::PayloadLength),
    ];
    for (header, expected) in cases {
        let frame = image_frame(header, &[]);
        match parse_frame(&frame) {
            Err(FrameError::Image(error)) => assert_eq!(error, expected, "{header}"),
            other => panic!("{header}: {other:?}"),
        }
    }
    assert!(matches!(
        parse_image_header(&format!("{ID}:4294967295:4294967295:1:raw"), 0, 0),
        Err(ImageHeaderError::Overflow)
    ));
}

#[test]
fn content_id_round_trips_and_rejects_junk() {
    assert_eq!(ContentId::from_str(ID).unwrap().to_string(), ID);
    assert!(ContentId::from_str("abc").is_none());
    // A sign is no digit.
    assert!(ContentId::from_str("+0000000000000000000000000000001").is_none());
    assert_eq!(ContentId::from_str("0123456789ABCDEF0123456789ABCDEF").unwrap().to_string(), ID);
    assert_eq!(id(0).to_string(), "00000000000000000000000000000000");
    assert_eq!(
        ContentId(u128::MAX).to_string(),
        "ffffffffffffffffffffffffffffffff"
    );
}

#[test]
fn view_encodes_with_the_opacity_request() {
    let encoded = ClientMessage::View {
        visible: vec![1, 2],
        prefetch: vec![3],
        cached: vec![],
        scale: "2.0".to_string(),
        encoding: Encoding::Raw,
    }
    .encode();
    let (head, body) = encoded.split_once('\n').unwrap();
    assert_eq!(head, "view");
    let json: serde_json::Value = serde_json::from_str(body).unwrap();
    let visible: Vec<u64> =
        json["visible"].as_array().unwrap().iter().map(|v| v.as_u64().unwrap()).collect();
    assert_eq!(visible, vec![1, 2]);
    assert_eq!(json["scale"], 2.0);
    assert_eq!(json["encoding"], "raw");
    assert_eq!(json["opaque"], true, "the decode path depends on this");
    assert_eq!(json["cached"].as_array().unwrap().len(), 0);
    assert_eq!(json["prefetch"][0], 3);
}

#[test]
fn want_pages_addresses_by_index() {
    let encoded = ClientMessage::WantPages(vec![7, 8]).encode();
    assert_eq!(encoded, "want-page\n{\"i\":[7,8]}");
}

#[test]
fn encodings_have_distinct_names() {
    assert_eq!(Encoding::Raw.as_str(), "raw");
    assert_eq!(Encoding::Png.as_str(), "png");
    assert_eq!(Encoding::parse("raw"), Some(Encoding::Raw));
    assert_eq!(Encoding::parse("png"), Some(Encoding::Png));
    assert_eq!(Encoding::parse("RAW"), None);
    assert_eq!(SUBPROTOCOL, "tinymist-page-image-v1");
}
