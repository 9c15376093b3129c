//! The preview session, the views and the stream of SVG pages.
use std::collections::HashSet;
use std::sync::Arc;
use zed_parts::typst_viewer::decode::{decode_page, RenderImage};
use zed_parts::typst_viewer::image_cache::PageImage;
use zed_parts::typst_viewer::page_table::PageTable;
use zed_parts::typst_viewer::preview_session::{
    after_attempt, decode_image, find_tinymist_server, negotiated, preview_args, read_step,
    register_tinymist_notifications, AttemptOutcome, AttemptStep, ConnectionStatus, Decoded,
    Inbound, PreviewSession, ReadStep, SessionEvent, UnsupportedServer, Upgrade, Viewport,
    MAX_HELD,
};
use zed_parts::typst_viewer::preview_view::{
    apply_table_delta, find_existing_preview, is_typst_extension, render_page, status_message,
    tab_content_text, viewport_for, PageView,
};
use zed_parts::typst_viewer::protocol::{
    parse_frame, ClientMessage, ContentId, Encoding, Frame, TableEntryDelta, MAX_FRAME_BYTES,
};
use zed_parts::typst_viewer::svg_stream::{
    inject_glyph_defs, mock_svg, mock_svg_multipage, mock_svg_versioned, parse_page_header,
    parse_svg_message, preview_address, AddressError,
};
use zed_parts::typst_viewer::svg_view::{
    loading_label, receive, visible_page, GlyphDefsCache, PageBatch, PageSlot, PreviewContent,
    PreviewState, SocketMessage, SocketStep,
};

fn image_of(red: u8) -> Arc<RenderImage> {
    Arc::new(decode_page(&[red, 0, 0, 255], 1, 1, Encoding::Raw, 2.0f32.to_bits()).unwrap())
}

fn entry(index: usize, content: u128) -> TableEntryDelta {
    TableEntryDelta {
        index,
        width: Some(595.0f32.to_bits()),
        height: Some(842.0f32.to_bits()),
        content: Some(ContentId(content)),
    }
}

fn view_of(visible: std::ops::Range<usize>, prefetch: std::ops::Range<usize>) -> Viewport {
    Viewport { visible, prefetch }
}

#[test]
fn mock_svg_is_valid() {
    let svg = mock_svg();
    assert!(svg.starts_with("<svg"), "should start with <svg tag");
    assert!(svg.ends_with("</svg>"), "should end with </svg>");
    assert!(svg.contains("xmlns"), "should have xmlns attribute");
    assert!(svg.contains("viewBox"), "should have viewBox attribute");
}

#[test]
fn versioned_svg_contains_version() {
    for v in [0, 1, 42] {
        let svg = mock_svg_versioned(v);
        assert!(svg.starts_with("<svg"), "should start with <svg tag");
        assert!(svg.ends_with("</svg>"), "should end with </svg>");
        assert!(
            svg.contains(&format!("Version {v}")),
            "version {v} SVG should contain 'Version {v}'"
        );
    }
}

#[test]
fn multipage_mock_produces_correct_count_and_headers() {
    for count in [1, 3, 5] {
        let pages = mock_svg_multipage(count);
        assert_eq!(pages.len(), count, "should produce {count} pages");

        for (i, msg) in pages.iter().enumerate() {
            let expected_prefix = format!("page:{i}:{count}\n");
            assert!(
                msg.starts_with(&expected_prefix),
                "page {i} should start with '{expected_prefix}', got: {}",
                &msg[..msg.len().min(40)]
            );

            // The SVG body after the header should be valid.
            let svg = &msg[expected_prefix.len()..];
            assert!(svg.starts_with("<svg"), "page {i} body should start with <svg");
            assert!(svg.ends_with("</svg>"), "page {i} body should end with </svg>");
            assert!(
                svg.contains(&format!("Page {} of {count}", i + 1)),
                "page {i} should contain distinguishing text"
            );
        }
    }
}

#[test]
fn parse_page_header_roundtrip() {
    let pages = mock_svg_multipage(3);
    for (i, msg) in pages.iter().enumerate() {
        let (header, svg) = parse_page_header(msg)
            .unwrap_or_else(|| panic!("should parse page header for page {i}"));
        assert_eq!(header.index, i, "page index mismatch");
        assert_eq!(header.total, 3, "page total mismatch");
        assert!(svg.starts_with("<svg"), "svg body should start with <svg");
    }
}

#[test]
fn parse_page_header_rejects_non_page_messages() {
    assert!(parse_page_header("<svg>...</svg>").is_none());
    assert!(parse_page_header("viewport,0 0 0").is_none());
    assert!(parse_page_header("page:abc:def\n<svg/>").is_none());
    assert!(parse_page_header("page:0\n<svg/>").is_none()); // missing total
}

#[test]
fn inject_glyph_defs_inserts_after_svg_tag() {
    let svg = br#"<svg xmlns="http://www.w3.org/2000/svg" width="100" height="100"><rect/></svg>"#;
    let defs = r#"<defs id="glyph"><symbol id="g1"><path d="M0 0"/></symbol></defs>"#;
    let result = inject_glyph_defs(svg, defs);
    let result_str = String::from_utf8(result).expect("valid utf8");

    // Defs should appear right after the opening <svg ...> tag.
    let svg_close = result_str.find('>').unwrap();
    let after_tag = &result_str[svg_close + 1..];
    assert!(
        after_tag.starts_with(r#"<defs id="glyph">"#),
        "defs should be inserted right after <svg> tag, got: {}",
        &after_tag[..after_tag.len().min(80)]
    );

    // Original content should still be present after the defs.
    assert!(result_str.contains("<rect/>"), "original content preserved");
    assert!(result_str.ends_with("</svg>"), "closing tag preserved");
}

#[test]
fn inject_glyph_defs_noop_on_empty_defs() {
    let svg = b"<svg><text>hello</text></svg>";
    let result = inject_glyph_defs(svg, "");
    assert_eq!(result, svg, "empty defs should not change the SVG");
}

#[test]
fn inject_glyph_defs_replaces_broken_bytes() {
    let result = inject_glyph_defs(b"<svg>\xff</svg>", "<defs/>");
    assert_eq!(String::from_utf8(result).unwrap(), "<svg><defs/>\u{fffd}</svg>");
    assert_eq!(inject_glyph_defs(b"\xffno tag", "<defs/>"), b"\xffno tag".to_vec());
}

#[test]
fn svg_messages_need_no_header() {
    assert_eq!(
        parse_svg_message("page:1:2\n<svg/>"),
        Some((1, 2, "<svg/>".to_string()))
    );
    assert_eq!(parse_svg_message("<svg/>"), Some((0, 1, "<svg/>".to_string())));
    assert_eq!(parse_svg_message("nothing to draw"), None);
}

#[test]
fn addresses_come_from_urls() {
    assert_eq!(preview_address("ws://127.0.0.1:8080/x").unwrap(), "127.0.0.1:8080");
    assert_eq!(preview_address("ws://example.org"), Ok("example.org:80".to_string()));
    assert_eq!(preview_address("not a url"), Err(AddressError::NotAUrl));
    assert_eq!(preview_address("data:text/plain,x"), Err(AddressError::NoHost));
}

#[test]
fn batches_keep_the_freshest_svg_of_each_page() {
    let mut batch = PageBatch::start("page:0:3\n<svg>a</svg>").unwrap();
    assert!(!batch.add("page:2:3\n<svg>b</svg>"));
    assert!(batch.add("page:0:3\n<svg>c</svg>"));
    assert!(!batch.add("no svg"));
    assert_eq!(batch.total, 3);
    assert_eq!(batch.svg_of(0), Some("<svg>c</svg>"));
    assert_eq!(batch.svg_of(2), Some("<svg>b</svg>"));
    assert_eq!(batch.svg_of(1), None);
    // The first page with another count starts anew.
    assert!(!batch.add("page:0:4\n<svg>d</svg>"));
    assert_eq!(batch.total, 4);
    assert_eq!(batch.svg_of(2), None);
    assert!(PageBatch::start("hello").is_none());
}

#[test]
fn the_visible_page_is_rendered_first() {
    let mut batch = PageBatch::start("page:5:6\n<svg/>").unwrap();
    for i in [0, 3, 1, 4, 2] {
        batch.add(&format!("page:{i}:6\n<svg/>"));
    }
    // Page 0 keeps the count, so nothing was dropped.
    assert_eq!(batch.page_order(2), vec![2, 1, 3, 0, 4, 5]);
    assert_eq!(visible_page(7, 3), 2);
    assert_eq!(visible_page(1, 3), 1);
    assert_eq!(visible_page(1, 0), 0);
}

#[test]
fn stripped_glyph_defs_are_restored() {
    let mut cache = GlyphDefsCache::new();
    let full = r#"<svg><defs id="glyph"><g/></defs><rect/></svg>"#;
    assert_eq!(cache.complete(0, full), full.as_bytes().to_vec());
    let later = cache.complete(0, "<svg><rect/></svg>");
    assert_eq!(String::from_utf8(later).unwrap(), full);
    // Definitions belong to their page.
    assert_eq!(cache.complete(1, "<svg/>"), b"<svg/>".to_vec());
}

#[test]
fn shown_pages_follow_the_document() {
    let state = PreviewState::Connecting.show_page(2, 1, image_of(1));
    match &state {
        PreviewState::Rendering { pages } => {
            assert_eq!(pages.len(), 2);
            assert!(pages[0].is_none() && pages[1].is_some());
        }
        _ => panic!("pages should be shown"),
    }
    assert!(state.message().is_none());
    match state.show_page(1, 0, image_of(2)) {
        PreviewState::Rendering { pages } => {
            assert_eq!(pages.len(), 1);
            assert_eq!(pages[0].as_ref().unwrap().pixels, vec![0, 0, 2, 255]);
        }
        _ => panic!("pages should be shown"),
    }
    assert_eq!(loading_label(0), "Loading page 1…");
    assert_eq!(
        PreviewState::Disconnected { reason: "gone".to_string() }.message().unwrap(),
        "Disconnected: gone"
    );
    assert_eq!(
        PreviewState::Error { message: "bad".to_string() }.message().unwrap(),
        "Error: bad"
    );
    assert_eq!(
        PreviewState::Connecting.message().unwrap(),
        "Connecting to preview server…"
    );
}

#[test]
fn socket_messages_decide_what_follows() {
    assert!(matches!(
        receive(&SocketMessage::Text("<svg/>".to_string())),
        SocketStep::Render(_)
    ));
    assert!(matches!(
        receive(&SocketMessage::Text("viewport,0 0 0".to_string())),
        SocketStep::Wait
    ));
    assert!(matches!(receive(&SocketMessage::Other), SocketStep::Wait));
    match receive(&SocketMessage::Closed) {
        SocketStep::Stop(PreviewState::Disconnected { reason }) => {
            assert_eq!(reason, "Server closed connection")
        }
        other => panic!("{other:?}"),
    }
    match receive(&SocketMessage::Failed("reset".to_string())) {
        SocketStep::Stop(PreviewState::Disconnected { reason }) => {
            assert_eq!(reason, "WebSocket error: reset")
        }
        other => panic!("{other:?}"),
    }
}

#[test]
fn a_session_draws_what_arrives() {
    let mut session = PreviewSession::new();
    assert!(matches!(session.status(), ConnectionStatus::Connecting));
    session.set_viewport(view_of(0..1, 0..2), session.scale, false, false);
    let events = session.apply_batch(&vec![
        Decoded::Pages { total: 2, full: true, entries: vec![entry(0, 1), entry(1, 2)] },
        Decoded::Image { content: ContentId(1), image: image_of(1), rendered_scale: session.scale },
        Decoded::Failed { content: ContentId(2), msg: "too big".to_string() },
    ]);
    assert!(matches!(&events[0], SessionEvent::TableChanged(delta) if delta.total == 2));
    match events.last().unwrap() {
        SessionEvent::PagesChanged(pages) => assert_eq!(pages.as_slice(), &[0, 1]),
        _ => panic!("pages should change"),
    }
    assert!(matches!(session.image_at(0), PageImage::Current(_)));
    assert!(matches!(session.image_at(1), PageImage::Failed));
    assert_eq!(session.table().len(), 2);
    assert_eq!(session.resident_bytes(), 4);
    assert!(matches!(render_page(&session, 0), PageView::Image(_)));
    assert!(matches!(render_page(&session, 1), PageView::Message(_)));
    assert!(matches!(render_page(&session, 2), PageView::Nothing));

    // A keystroke: the old image stays until the new one is there.
    session.apply_batch(&vec![Decoded::Pages {
        total: 2,
        full: false,
        entries: vec![TableEntryDelta {
            index: 0,
            width: None,
            height: None,
            content: Some(ContentId(9)),
        }],
    }]);
    assert!(matches!(session.image_at(0), PageImage::Stale(_)));
}

#[test]
fn images_out_of_the_held_pages_are_dropped() {
    let mut session = PreviewSession::new();
    session.set_viewport(view_of(0..1, 0..1), session.scale, false, false);
    session.apply_batch(&vec![
        Decoded::Pages { total: 2, full: true, entries: vec![entry(0, 1), entry(1, 2)] },
        Decoded::Image { content: ContentId(1), image: image_of(1), rendered_scale: session.scale },
        Decoded::Image { content: ContentId(2), image: image_of(1), rendered_scale: session.scale },
    ]);
    assert_eq!(session.held_indices(), vec![0]);
    assert_eq!(session.resident_bytes(), 4);
    assert!(matches!(session.image_at(1), PageImage::Missing));
}

#[test]
fn views_are_sent_once_connected() {
    let mut session = PreviewSession::new();
    session.apply_batch(&vec![Decoded::Pages { total: 4, full: true, entries: vec![] }]);
    session.set_viewport(view_of(1..2, 0..9), session.scale, false, false);
    assert!(session.send_view("2.0".to_string()).is_none());
    session.connected = true;
    match session.send_view("2.0".to_string()).unwrap() {
        ClientMessage::View { visible, prefetch, cached, scale, encoding } => {
            assert_eq!(visible, vec![1]);
            assert_eq!(prefetch, vec![0, 2, 3]);
            assert!(cached.is_empty());
            assert_eq!(scale, "2.0");
            assert_eq!(encoding, Encoding::Raw);
        }
        other => panic!("{other:?}"),
    }
    assert_eq!(session.requested_scale, session.scale);
}

#[test]
fn held_indices_are_bounded() {
    let mut session = PreviewSession::new();
    session.apply_batch(&vec![Decoded::Pages { total: 1000, full: true, entries: vec![] }]);
    session.set_viewport(view_of(0..1000, 0..1000), session.scale, false, false);
    assert_eq!(session.held_indices().len(), MAX_HELD);
}

#[test]
fn a_viewport_change_is_sent_after_a_while() {
    let mut session = PreviewSession::new();
    let scale = session.scale;
    assert_eq!(session.set_viewport(view_of(0..0, 0..0), scale, false, false), (false, None));
    let (redraw, moved) = session.set_viewport(view_of(0..1, 0..3), scale, false, false);
    assert!(!redraw && moved.is_some());
    let (redraw, zoomed) =
        session.set_viewport(view_of(0..1, 0..3), 3.0f32.to_bits(), true, true);
    assert!(redraw && zoomed.is_some() && zoomed != moved);
    assert_eq!(session.scale, 3.0f32.to_bits());
    assert!(matches!(
        session.set_status(ConnectionStatus::Connected),
        SessionEvent::StatusChanged
    ));
}

#[test]
fn frames_are_decoded_at_their_own_scale() {
    let mut frame = b"image:0123456789abcdef0123456789abcdef:1:1:1:raw\n".to_vec();
    frame.extend_from_slice(&[1, 2, 3, 4]);
    let header = match parse_frame(&frame).unwrap().unwrap() {
        Frame::Image(header) => header,
        _ => panic!("expected an image"),
    };
    match decode_image(&frame, &header, 1.0f32.to_bits()).unwrap() {
        Decoded::Image { image, rendered_scale, .. } => {
            assert_eq!(image.pixels, vec![3, 2, 1, 4]);
            assert_eq!(rendered_scale, 1.0f32.to_bits());
        }
        _ => panic!("expected an image"),
    }
}

#[test]
fn the_server_of_the_buffer_comes_first() {
    let servers = vec![(1, "rust-analyzer".to_string()), (2, "tinymist".to_string())];
    assert_eq!(find_tinymist_server(Some(7), &servers), Some(7));
    assert_eq!(find_tinymist_server(None, &servers), Some(2));
    let two = vec![(2, "tinymist".to_string()), (3, "tinymist".to_string())];
    assert_eq!(find_tinymist_server(None, &two), None);
    let mut registered = HashSet::new();
    assert!(register_tinymist_notifications(&mut registered, 2));
    assert!(!register_tinymist_notifications(&mut registered, 2));
    assert_eq!(
        preview_args("/a.typ"),
        vec![
            "--page-images=true",
            "--data-plane-host=127.0.0.1:0",
            "--task-id=/a.typ",
            "/a.typ"
        ]
    );
}

#[test]
fn refused_upgrades_are_not_retried() {
    assert!(negotiated(&Upgrade::Accepted(Some("tinymist-page-image-v1".to_string()))).is_ok());
    assert_eq!(negotiated(&Upgrade::Accepted(None)), Err(AttemptOutcome::Unsupported));
    assert_eq!(negotiated(&Upgrade::Refused(400)), Err(AttemptOutcome::Unsupported));
    assert_eq!(negotiated(&Upgrade::Refused(503)), Err(AttemptOutcome::Failed));
    assert_eq!(negotiated(&Upgrade::Broken), Err(AttemptOutcome::Failed));
    assert_eq!(after_attempt(1, AttemptOutcome::Unsupported), AttemptStep::GiveUp);
    assert_eq!(after_attempt(1, AttemptOutcome::Failed), AttemptStep::RetryAfter(1000));
    assert_eq!(after_attempt(3, AttemptOutcome::Failed), AttemptStep::GiveUp);
    assert_eq!(after_attempt(2, AttemptOutcome::Ended), AttemptStep::Finish);
    assert_eq!(
        UnsupportedServer.to_string(),
        "this tinymist does not support the page-image preview protocol \
         (tinymist-page-image-v1); a newer tinymist is required"
    );
    assert_eq!(read_step(Inbound::Message(MAX_FRAME_BYTES)), ReadStep::Decode);
    assert_eq!(read_step(Inbound::Message(MAX_FRAME_BYTES + 1)), ReadStep::Stop);
    assert_eq!(read_step(Inbound::Closed), ReadStep::Stop);
    assert_eq!(read_step(Inbound::Other), ReadStep::Skip);
}

#[test]
fn the_list_follows_the_table() {
    let mut table = PageTable::default();
    table.apply(2, true, &[entry(0, 1), entry(1, 2)]);
    let delta = table.apply(3, false, &[entry(0, 7), entry(1, 1), entry(2, 2)]);
    let plan = apply_table_delta(&delta, &table, 2, 1, Some(ContentId(2)));
    assert_eq!(plan.splice, Some((2..2, 1)));
    assert_eq!(plan.scroll_to, Some(2));
    let none = apply_table_delta(&delta, &table, 3, 1, None);
    assert_eq!(none.scroll_to, None);
}

#[test]
fn views_name_what_they_show() {
    assert_eq!(viewport_for(0..2).visible, 0..2);
    assert_eq!(viewport_for(0..2).prefetch.start, 0);
    assert!(viewport_for(10..12).prefetch.start < 10);
    assert!(viewport_for(10..12).prefetch.end > 12);
    assert!(is_typst_extension("typ") && is_typst_extension("TYP"));
    assert!(!is_typst_extension("type"));
    assert_eq!(tab_content_text(Some("a.typ")), "Preview a.typ");
    assert_eq!(tab_content_text(None), "Typst Preview");
    assert_eq!(find_existing_preview(&vec![None, Some(4), Some(4)], 4), Some(1));
    assert_eq!(find_existing_preview(&vec![None], 4), None);
    assert_eq!(
        status_message(&ConnectionStatus::Error { message: "x".to_string() }, 0).unwrap(),
        "Error: x"
    );
    assert!(status_message(&ConnectionStatus::Connected, 1).is_none());
}

#[test]
fn previews_draw_images_labels_or_a_message() {
    let state = PreviewState::Connecting.show_page(2, 0, image_of(5));
    match state.render() {
        PreviewContent::Pages(slots) => {
            assert_eq!(slots.len(), 2);
            assert!(matches!(&slots[0], PageSlot::Image(image) if image.pixels[2] == 5));
            assert!(matches!(&slots[1], PageSlot::Loading(label) if label == "Loading page 2…"));
        }
        PreviewContent::Message(text) => panic!("{text}"),
    }
    assert_eq!(state.page_count(7), 2);
    assert_eq!(PreviewState::Connecting.page_count(7), 7);
    assert!(matches!(
        PreviewState::Error { message: "x".to_string() }.render(),
        PreviewContent::Message(text) if text == "Error: x"
    ));
}

#[test]
fn batching_does_not_matter() {
    let frames = || vec![
        Decoded::Pages { total: 1, full: true, entries: vec![TableEntryDelta {
            index: 0,
            width: Some(100.0f32.to_bits()),
            height: Some(200.0f32.to_bits()),
            content: None,
        }] },
        Decoded::Pages { total: 1, full: false, entries: vec![TableEntryDelta {
            index: 0,
            width: None,
            height: None,
            content: Some(ContentId(1)),
        }] },
    ];
    let mut together = PreviewSession::new();
    together.apply_batch(&frames());
    let mut apart = PreviewSession::new();
    for frame in frames() {
        apart.apply_batch(&vec![frame]);
    }
    for session in [&together, &apart] {
        let entry = session.table().get(0).unwrap();
        assert_eq!(entry.size.width, 100.0f32.to_bits());
        assert_eq!(entry.content, Some(ContentId(1)));
    }
}

#[test]
fn failures_are_not_final() {
    let mut session = PreviewSession::new();
    session.set_viewport(view_of(0..1, 0..1), session.scale, false, false);
    let scale = session.scale;
    session.apply_batch(&vec![
        Decoded::Pages { total: 1, full: true, entries: vec![entry(0, 1)] },
        Decoded::Failed { content: ContentId(1), msg: "too big".to_string() },
    ]);
    assert!(matches!(session.image_at(0), PageImage::Failed));
    session.apply_batch(&vec![
        Decoded::Image { content: ContentId(1), image: image_of(1), rendered_scale: scale },
        Decoded::Image { content: ContentId(1), image: image_of(2), rendered_scale: scale },
    ]);
    match session.image_at(0) {
        PageImage::Current(image) => assert_eq!(image.pixels, vec![0, 0, 2, 255]),
        other => panic!("{other:?}"),
    }
    assert_eq!(session.resident_bytes(), 4);
    // A zoom makes what is there stale, not missing.
    session.set_viewport(view_of(0..1, 0..1), 4.0f32.to_bits(), true, true);
    assert!(matches!(session.image_at(0), PageImage::Stale(_)));
    // An image of the scale before the zoom is believed to be what it says.
    session.apply_batch(&vec![
        Decoded::Image { content: ContentId(1), image: image_of(3), rendered_scale: scale },
    ]);
    assert!(matches!(session.image_at(0), PageImage::Stale(_)));
}
