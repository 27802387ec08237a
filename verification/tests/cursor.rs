use tessera_engine::records::cursor::{
    ArtifactsCursor, Binding, CursorKey, CursorRefused, ItemsCursor, LayerBinding, Route,
    ARTIFACTS_PAYLOAD_LEN, FORMAT, PAYLOAD_LEN,
};
use tessera_engine::records::walk::Position;
use tessera_engine::records::RecordsOrder;

const KEY: &str = "000102030405060708090a0b0c0d0e0f";

fn binding(view: &str, incarnation: u64, hash: u8) -> Binding {
    Binding {
        route: Route::Items,
        view: view.to_string(),
        incarnation,
        auth_data_hash: [hash; 32],
        layer: None,
    }
}

#[test]
fn a_cursor_opens_only_under_the_binding_it_was_sealed_with() {
    let key = CursorKey::of(KEY);
    let cursor = ItemsCursor {
        idset: 7,
        position: Position {
            order: RecordsOrder::ByMap,
            scan: Some((4, u64::MAX)),
        },
        stretch: 16_384,
    };
    let token = key.seal(&binding("s0", 0, 1), &cursor.encode());
    let opened = key.open(&binding("s0", 0, 1), &token).unwrap();
    assert_eq!(ItemsCursor::decode(&opened).unwrap(), cursor);

    for other in [binding("s1", 0, 1), binding("s0", 1, 1), binding("s0", 0, 2)] {
        assert!(matches!(key.open(&other, &token), Err(CursorRefused)));
    }
    let rotated = CursorKey::of("0f0e0d0c0b0a09080706050403020100");
    assert!(matches!(
        rotated.open(&binding("s0", 0, 1), &token),
        Err(CursorRefused)
    ));
}

fn artifacts(name: &str, entity: u64, level: Option<u32>) -> Binding {
    Binding {
        route: Route::Artifacts,
        view: "s0".to_string(),
        incarnation: 0,
        auth_data_hash: [1; 32],
        layer: Some(LayerBinding {
            name: name.to_string(),
            entity,
            level,
        }),
    }
}

/// An artifacts cursor opens only for its layer's name, entity and named level, and never under an
/// items binding for the same view and credential.
#[test]
fn an_artifacts_cursor_opens_only_for_its_layer_and_level() {
    let key = CursorKey::of(KEY);
    let cursor = ArtifactsCursor {
        idset: 3,
        scan: Some((1, 40)),
    };
    let token = key.seal(&artifacts("clusters/a", 9, Some(1)), &cursor.encode());
    let opened = key
        .open(&artifacts("clusters/a", 9, Some(1)), &token)
        .unwrap();
    assert_eq!(ArtifactsCursor::decode(&opened).unwrap(), cursor);
    for other in [
        artifacts("clusters/b", 9, Some(1)),
        artifacts("clusters/a", 8, Some(1)),
        artifacts("clusters/a", 9, None),
        artifacts("clusters/a", 9, Some(0)),
        binding("s0", 0, 1),
    ] {
        assert!(matches!(key.open(&other, &token), Err(CursorRefused)));
    }
}

#[test]
fn two_cursors_for_one_position_share_no_text() {
    let key = CursorKey::of(KEY);
    let payload = ItemsCursor {
        idset: 1,
        position: Position {
            order: RecordsOrder::Stored,
            scan: Some((12, 0)),
        },
        stretch: 4096,
    }
    .encode();
    let a = key.seal(&binding("s0", 0, 1), &payload);
    let b = key.seal(&binding("s0", 0, 1), &payload);
    assert_ne!(a, b);
}

/// Any other text is refused, whatever is wrong with it.
#[test]
fn a_text_that_is_no_cursor_is_refused() {
    let key = CursorKey::of(KEY);
    let bound = binding("s0", 0, 1);
    let token = key.seal_with(&bound, &[9; 24], &[1, 2, 3]);
    assert_eq!(key.open(&bound, &token).unwrap(), vec![1, 2, 3]);
    assert!(!token.contains('='), "unpadded");

    for broken in ["", "A", "not a cursor!", "BAAA"] {
        assert!(matches!(key.open(&bound, broken), Err(CursorRefused)));
    }
    let cut = &token[..token.len() - 1];
    assert!(matches!(key.open(&bound, cut), Err(CursorRefused)));
    let mut longer = token.clone();
    longer.push('A');
    assert!(matches!(key.open(&bound, &longer), Err(CursorRefused)));
}

#[test]
fn an_items_cursor_is_its_fields_little_endian() {
    let cursor = ItemsCursor {
        idset: 0x0403_0201,
        position: Position {
            order: RecordsOrder::Stored,
            scan: None,
        },
        stretch: 4096,
    };
    let payload = cursor.encode();
    assert_eq!(payload.len(), PAYLOAD_LEN);
    assert_eq!(&payload[0..4], &[1, 2, 3, 4]);
    assert_eq!(ItemsCursor::decode(&payload).unwrap(), cursor);
    assert!(ItemsCursor::decode(&payload[1..]).is_err());
    let mut odd = payload.clone();
    odd[4] = 9;
    assert!(ItemsCursor::decode(&odd).is_err(), "no such order");
    assert_eq!(FORMAT, 4);
}

#[test]
fn an_artifacts_cursor_reads_back() {
    for scan in [None, Some((0, 0)), Some((2, u32::MAX))] {
        let cursor = ArtifactsCursor { idset: 5, scan };
        let payload = cursor.encode();
        assert_eq!(payload.len(), ARTIFACTS_PAYLOAD_LEN);
        assert_eq!(ArtifactsCursor::decode(&payload).unwrap(), cursor);
        assert!(ArtifactsCursor::decode(&payload[..12]).is_err());
    }
}
