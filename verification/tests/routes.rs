use rplace::canvas::{CanvasError, CanvasPicture};
use rplace::config::default_config;
use rplace::routes::{
    decimal_bytes, full, get_online_players, place, rect, refuse_change, refuse_players,
    set_online_players, Body, PlacePixelRequest, RectRequest, SetPlayersRequest, Status,
};

fn canvas() -> CanvasPicture {
    CanvasPicture::new(4, 4)
}

fn text(body: &Body) -> &'static str {
    match body {
        Body::Text(t) => t,
        _ => panic!("not a text body"),
    }
}

fn bytes(body: &Body) -> Vec<u8> {
    match body {
        Body::Bytes(b) => b.clone(),
        _ => panic!("not a byte body"),
    }
}

#[test]
fn default_configuration() {
    let c = default_config();
    assert_eq!(c.place_key, "key");
    assert_eq!(c.canvas_width, 256);
    assert_eq!(c.canvas_height, 256);
    assert!(c.ads.is_empty());
    assert!(c.motds.is_empty());
}

#[test]
fn place_with_key() {
    let config = default_config();
    let mut c = canvas();
    let req = PlacePixelRequest { x: 2, y: 1, color: 7, key: "key".to_string() };
    let reply = place(&config, &mut c, &req).unwrap();
    assert_eq!(reply.status, Status::Created);
    assert_eq!(reply.content_type, None);
    assert_eq!(text(&reply.body), "success");
    assert_eq!(c.get_data()[2 * 4 + 1], 7);
}

#[test]
fn place_with_wrong_key_is_forbidden() {
    let config = default_config();
    let mut c = canvas();
    let req = PlacePixelRequest { x: 2, y: 1, color: 7, key: "nope".to_string() };
    let reply = place(&config, &mut c, &req).unwrap();
    assert_eq!(reply.status, Status::Forbidden);
    assert!(matches!(reply.body, Body::Empty));
    assert_eq!(c.get_data(), &[0u8; 16][..]);
    assert!(refuse_change(&config, &req.key).is_some());
    assert!(refuse_change(&config, &"key".to_string()).is_none());
}

#[test]
fn place_out_of_bounds_is_an_error() {
    let config = default_config();
    let mut c = canvas();
    let req = PlacePixelRequest { x: 4, y: 1, color: 7, key: "key".to_string() };
    assert!(matches!(place(&config, &mut c, &req), Err(CanvasError::OutOfBounds)));
}

#[test]
fn rect_replies() {
    let config = default_config();
    let mut c = canvas();
    let ok = RectRequest { x: 0, y: 0, width: 2, height: 2, color: 3, key: "key".to_string() };
    let reply = rect(&config, &mut c, &ok);
    assert_eq!(reply.status, Status::Created);
    assert_eq!(text(&reply.body), "success");
    assert_eq!(c.get_data()[0], 3);
    assert_eq!(c.get_data()[5], 3);

    let big = RectRequest { x: 0, y: 0, width: 4, height: 1, color: 3, key: "key".to_string() };
    let reply = rect(&config, &mut c, &big);
    assert_eq!(reply.status, Status::BadRequest);
    assert_eq!(text(&reply.body), "Pixel out of bounds");

    let wrong = RectRequest { x: 0, y: 0, width: 1, height: 1, color: 9, key: "x".to_string() };
    let reply = rect(&config, &mut c, &wrong);
    assert_eq!(reply.status, Status::Forbidden);
    assert!(matches!(reply.body, Body::Empty));
    assert_eq!(c.get_data()[0], 3);
}

#[test]
fn map_and_full() {
    let mut c = canvas();
    c.set_pixel(1, 1, 4).unwrap();
    let reply = rplace::routes::map(&c);
    assert_eq!(reply.status, Status::Success);
    assert_eq!(reply.content_type, None);
    assert_eq!(bytes(&reply.body), c.get_data().to_vec());

    let reply = full(&c);
    assert_eq!(reply.status, Status::Success);
    assert_eq!(reply.content_type, Some("image/png"));
    assert_eq!(bytes(&reply.body), c.get_bytes());
}

#[test]
fn players_round_trip() {
    let config = default_config();
    let mut count: u32 = 0;
    let reply = set_online_players(&config, &mut count, &SetPlayersRequest { count: 42, key: "key".to_string() });
    assert_eq!(reply.status, Status::Success);
    assert_eq!(text(&reply.body), "success");
    assert_eq!(count, 42);
    let reply = get_online_players(count);
    assert_eq!(reply.status, Status::Success);
    assert_eq!(bytes(&reply.body), b"42".to_vec());

    let bad = SetPlayersRequest { count: 7, key: "other".to_string() };
    let reply = set_online_players(&config, &mut count, &bad);
    assert_eq!(reply.status, Status::Forbidden);
    assert_eq!(text(&reply.body), "invalid key");
    assert_eq!(count, 42);
    let refused = refuse_players(&config, &bad.key).unwrap();
    assert_eq!(text(&refused.body), "invalid key");
}

#[test]
fn decimal_text() {
    for n in [0u32, 7, 10, 99, 100, 4096, 65535, 1_000_000, u32::MAX] {
        assert_eq!(decimal_bytes(n), n.to_string().into_bytes());
    }
}
