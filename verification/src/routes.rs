//! The requests the server takes and the replies of its routes, without the
//! HTTP plumbing: each route here computes its reply from the request and the
//! state the server hands it.

use crate::canvas::{
    cell, paint_data, paint_pixels, palette, CanvasError, CanvasPicture,
};
use crate::config::AppConfig;
use vstd::prelude::*;
use vstd::slice::slice_to_vec;

verus! {

/// Body of `POST /place`: set one cell.
pub struct PlacePixelRequest {
    pub x: u32,
    pub y: u32,
    pub color: u8,
    pub key: String,
}

/// Query of `GET /save`.
pub struct SaveRequest {
    pub key: String,
}

/// Body of `POST /rect`: fill a rectangle.
pub struct RectRequest {
    pub x: u32,
    pub y: u32,
    pub width: u32,
    pub height: u32,
    pub color: u8,
    pub key: String,
}

/// Body of `POST /players`: set the number of players online.
pub struct SetPlayersRequest {
    pub count: u32,
    pub key: String,
}

/// The HTTP status of a reply.
#[derive(Clone, Copy, Debug, PartialEq, Eq, Structural)]
pub enum Status {
    /// 200
    Success,
    /// 201
    Created,
    /// 400
    BadRequest,
    /// 403
    Forbidden,
}

/// The body of a reply.
pub enum Body {
    Empty,
    Text(&'static str),
    Bytes(Vec<u8>),
}

/// A reply: status, content type where one is set, and body.
pub struct Reply {
    pub status: Status,
    pub content_type: Option<&'static str>,
    pub body: Body,
}

/// A request is authorized exactly when its key is the configured key, of
/// whatever length.
pub proof fn lemma_authorized_is_key_equality(config: &AppConfig, key: &String)
    ensures
        authorized(config, key) <==> key@ == config.place_key@,
{
}

/// Whether a request carries the key of the configuration.
pub open spec fn authorized(config: &AppConfig, key: &String) -> bool {
    key@ == config.place_key@
}

/// Whether a reply has the given status, no content type, and the given text.
pub open spec fn text_reply(r: Reply, status: Status, text: Seq<char>) -> bool {
    &&& r.status == status
    &&& r.content_type is None
    &&& r.body matches Body::Text(t) && t@ == text
}

/// Whether a reply has the given status, no content type and no body.
pub open spec fn empty_reply(r: Reply, status: Status) -> bool {
    &&& r.status == status
    &&& r.content_type is None
    &&& r.body is Empty
}

/// Whether a reply has status 200 and the given bytes as body.
pub open spec fn bytes_reply(r: Reply, content_type: Option<Seq<char>>, bytes: Seq<u8>) -> bool {
    &&& r.status == Status::Success
    &&& match (r.content_type, content_type) {
        (None, None) => true,
        (Some(t), Some(u)) => t@ == u,
        _ => false,
    }
    &&& r.body matches Body::Bytes(b) && b@ == bytes
}

/// Checks a request key against the configuration.
pub fn key_matches(config: &AppConfig, key: &String) -> (b: bool)
    ensures
        b == authorized(config, key),
        b == (key@ == config.place_key@),
{
    *key == config.place_key
}

/// The reply that `POST /place` and `POST /rect` give, before they touch the
/// canvas, to a request with a wrong key: 403 with no body.
pub fn refuse_change(config: &AppConfig, key: &String) -> (r: Option<Reply>)
    ensures
        r is None <==> authorized(config, key),
        r is None <==> key@ == config.place_key@,
        r matches Some(reply) ==> empty_reply(reply, Status::Forbidden),
{
    if key_matches(config, key) {
        None
    } else {
        Some(Reply { status: Status::Forbidden, content_type: None, body: Body::Empty })
    }
}

/// The reply that `POST /players` gives, before it touches the count, to a
/// request with a wrong key: 403 `invalid key`.
pub fn refuse_players(config: &AppConfig, key: &String) -> (r: Option<Reply>)
    ensures
        r is None <==> authorized(config, key),
        r is None <==> key@ == config.place_key@,
        r matches Some(reply) ==> text_reply(reply, Status::Forbidden, "invalid key"@),
{
    if key_matches(config, key) {
        None
    } else {
        Some(Reply { status: Status::Forbidden, content_type: None, body: Body::Text("invalid key") })
    }
}

/// The decimal digits of `n`, as ASCII bytes, without leading zeros.
pub open spec fn decimal(n: nat) -> Seq<u8>
    decreases n,
{
    if n < 10 {
        seq![(48 + n) as u8]
    } else {
        decimal(n / 10).push((48 + n % 10) as u8)
    }
}

/// The number that a string of ASCII decimal digits reads as: each byte
/// minus 48 is a digit, the last one the units.
pub open spec fn digits_value(s: Seq<u8>) -> int
    decreases s.len(),
{
    if s.len() == 0 {
        0
    } else {
        digits_value(s.drop_last()) * 10 + (s.last() - 48)
    }
}

/// Whether every byte of `s` is an ASCII digit `'0'` to `'9'`.
pub open spec fn all_digits(s: Seq<u8>) -> bool {
    forall|i: int| 0 <= i < s.len() ==> 48 <= #[trigger] s[i] <= 57
}

/// The decimal text of `n` is what `n.to_string()` writes: a non-empty
/// string of ASCII digits, with no leading zero unless it is `"0"`, that
/// reads back as `n`.
pub proof fn lemma_decimal_reads_back(n: nat)
    ensures
        decimal(n).len() >= 1,
        all_digits(decimal(n)),
        decimal(n)[0] != 48 || decimal(n).len() == 1,
        n >= 1 ==> decimal(n)[0] != 48,
        digits_value(decimal(n)) == n,
    decreases n,
{
    reveal_with_fuel(digits_value, 2);
    if n < 10 {
        assert(decimal(n) =~= seq![(48 + n) as u8]);
        assert(decimal(n).drop_last() =~= Seq::<u8>::empty());
    } else {
        lemma_decimal_reads_back(n / 10);
        let s = decimal(n);
        assert(s.drop_last() =~= decimal(n / 10));
        assert(n == (n / 10) * 10 + n % 10);
        assert(s[0] == decimal(n / 10)[0]);
        assert forall|i: int| 0 <= i < s.len() implies 48 <= #[trigger] s[i] <= 57 by {
            if i < s.len() - 1 {
                assert(s[i] == decimal(n / 10)[i]);
            }
        }
    }
}

/// Two strings of ASCII digits without a leading zero that read as the same
/// number are the same string: the decimal text of a number is the only one.
pub proof fn lemma_decimal_unique(s: Seq<u8>, n: nat)
    requires
        s.len() >= 1,
        all_digits(s),
        s[0] != 48 || s.len() == 1,
        digits_value(s) == n,
    ensures
        s == decimal(n),
    decreases s.len(),
{
    reveal_with_fuel(digits_value, 2);
    if s.len() == 1 {
        assert(s.drop_last() =~= Seq::<u8>::empty());
        assert(48 <= s[0] <= 57);
        assert(n < 10);
        assert(s =~= decimal(n));
    } else {
        let p = s.drop_last();
        assert(p[0] == s[0]);
        assert forall|i: int| 0 <= i < p.len() implies 48 <= #[trigger] p[i] <= 57 by {
            assert(p[i] == s[i]);
        }
        lemma_digits_value_bounds(p);
        assert(digits_value(p) >= 1);
        lemma_decimal_unique(p, digits_value(p) as nat);
        let d = s.last() - 48;
        assert(0 <= d < 10);
        assert(n >= 10);
        assert(s.last() == 48 + d);
        assert(n / 10 == digits_value(p) && n % 10 == d) by {
            vstd::arithmetic::div_mod::lemma_fundamental_div_mod_converse(
                n as int,
                10,
                digits_value(p),
                d,
            );
        }
        assert(s =~= decimal(n));
    }
}

/// A string of ASCII digits that does not start with `'0'` reads as a
/// positive number.
proof fn lemma_digits_value_bounds(s: Seq<u8>)
    requires
        s.len() >= 1,
        all_digits(s),
        s[0] != 48,
    ensures
        digits_value(s) >= 1,
    decreases s.len(),
{
    reveal_with_fuel(digits_value, 2);
    if s.len() > 1 {
        let p = s.drop_last();
        assert(p[0] == s[0]);
        assert forall|i: int| 0 <= i < p.len() implies 48 <= #[trigger] p[i] <= 57 by {
            assert(p[i] == s[i]);
        }
        lemma_digits_value_bounds(p);
        assert(48 <= s[s.len() - 1] <= 57);
    } else {
        assert(s.drop_last() =~= Seq::<u8>::empty());
        assert(48 <= s[0] <= 57);
    }
}

/// The decimal digits of `n` (what `n.to_string()` gives), as ASCII bytes.
pub fn decimal_bytes(n: u32) -> (v: Vec<u8>)
    ensures
        v@ == decimal(n as nat),
        v@.len() >= 1,
        all_digits(v@),
        v@[0] != 48 || v@.len() == 1,
        digits_value(v@) == n,
{
    let mut digits: Vec<u8> = Vec::new();
    let mut m: u32 = n;
    let mut done = false;
    while !done
        invariant
            done ==> decimal(n as nat) == digits@,
            !done ==> decimal(n as nat) == decimal(m as nat) + digits@,
        decreases (if done { 0 } else { m as int + 1 }),
    {
        let d: u8 = (m % 10) as u8;
        let ghost before = digits@;
        digits.insert(0, 48 + d);
        if m < 10 {
            assert(decimal(m as nat) =~= seq![(48 + m) as u8]);
            assert(digits@ =~= decimal(m as nat) + before);
            done = true;
        } else {
            assert(decimal(m as nat) == decimal((m / 10) as nat).push((48 + m % 10) as u8));
            assert(decimal((m / 10) as nat) + digits@ =~= decimal(m as nat) + before);
            m = m / 10;
        }
    }
    proof {
        lemma_decimal_reads_back(n as nat);
    }
    digits
}

/// `POST /place`: with the right key, sets the cell and answers 201
/// `success`; with another key, changes nothing and answers 403. A cell off
/// the canvas is handed back as `OutOfBounds`, with nothing changed.
pub fn place(config: &AppConfig, canvas: &mut CanvasPicture, req: &PlacePixelRequest) -> (r: Result<
    Reply,
    CanvasError,
>)
    requires
        old(canvas).wf(),
        authorized(config, &req.key) && old(canvas)@.holds(req.x, req.y) ==> old(canvas)@.stores(
            req.x as int,
            req.y as int,
        ),
    ensures
        final(canvas).wf(),
        final(canvas)@.width == old(canvas)@.width,
        final(canvas)@.height == old(canvas)@.height,
        !authorized(config, &req.key) ==> {
            &&& r matches Ok(reply)
            &&& empty_reply(reply, Status::Forbidden)
            &&& final(canvas)@ == old(canvas)@
        },
        authorized(config, &req.key) && !old(canvas)@.holds(req.x, req.y) ==> r == Err::<
            Reply,
            CanvasError,
        >(CanvasError::OutOfBounds) && final(canvas)@ == old(canvas)@,
        authorized(config, &req.key) && old(canvas)@.holds(req.x, req.y) ==> {
            &&& r matches Ok(reply)
            &&& text_reply(reply, Status::Created, "success"@)
            &&& final(canvas)@.data == old(canvas)@.data.update(
                cell(old(canvas)@.width, req.x as int, req.y as int),
                req.color,
            )
            &&& final(canvas)@.pixels == old(canvas)@.pixels.insert(
                (req.x, req.y),
                palette(req.color),
            )
            &&& final(canvas)@.rendered()
        },
        req.key@ != config.place_key@ ==> (r matches Ok(reply) && reply.status
            == Status::Forbidden),
        req.key@ == config.place_key@ ==> (r is Err <==> (req.x >= old(canvas)@.width || req.y
            >= old(canvas)@.height)),
        req.key@ == config.place_key@ && req.x < old(canvas)@.width && req.y < old(canvas)@.height
            ==> (r matches Ok(reply) && reply.status == Status::Created),
{
    if !key_matches(config, &req.key) {
        return Ok(Reply { status: Status::Forbidden, content_type: None, body: Body::Empty });
    }
    match canvas.set_pixel(req.x, req.y, req.color) {
        Ok(()) => Ok(
            Reply { status: Status::Created, content_type: None, body: Body::Text("success") },
        ),
        Err(e) => Err(e),
    }
}

/// `POST /rect`: with the right key, fills the rectangle and answers 201
/// `success`, or, where it does not fit, changes nothing and answers 400
/// with the error text; with another key, changes nothing and answers 403.
pub fn rect(config: &AppConfig, canvas: &mut CanvasPicture, req: &RectRequest) -> (r: Reply)
    requires
        old(canvas).wf(),
        authorized(config, &req.key) ==> req.x + req.width <= u32::MAX && req.y + req.height
            <= u32::MAX,
        authorized(config, &req.key) && old(canvas)@.rect_fits(
            req.x,
            req.y,
            req.width,
            req.height,
        ) ==> old(canvas)@.rect_stored(req.x, req.y, req.width, req.height),
    ensures
        final(canvas).wf(),
        final(canvas)@.width == old(canvas)@.width,
        final(canvas)@.height == old(canvas)@.height,
        !authorized(config, &req.key) ==> empty_reply(r, Status::Forbidden) && final(canvas)@
            == old(canvas)@,
        authorized(config, &req.key) && !old(canvas)@.rect_fits(
            req.x,
            req.y,
            req.width,
            req.height,
        ) ==> text_reply(r, Status::BadRequest, "Pixel out of bounds"@) && final(canvas)@ == old(
            canvas,
        )@,
        authorized(config, &req.key) && old(canvas)@.rect_fits(
            req.x,
            req.y,
            req.width,
            req.height,
        ) ==> {
            &&& text_reply(r, Status::Created, "success"@)
            &&& final(canvas)@.data == paint_data(
                old(canvas)@.data,
                old(canvas)@.width,
                req.x as int,
                req.x + req.width,
                req.y as int,
                req.y + req.height,
                req.color,
            )
            &&& final(canvas)@.pixels == paint_pixels(
                old(canvas)@.pixels,
                req.x as int,
                req.x + req.width,
                req.y as int,
                req.y + req.height,
                palette(req.color),
            )
            &&& final(canvas)@.rendered()
        },
        req.key@ != config.place_key@ ==> r.status == Status::Forbidden,
        req.key@ == config.place_key@ ==> (r.status == Status::BadRequest <==> (req.x + req.width
            >= old(canvas)@.width || req.y + req.height >= old(canvas)@.height)),
        req.key@ == config.place_key@ && req.x + req.width < old(canvas)@.width && req.y
            + req.height < old(canvas)@.height ==> r.status == Status::Created,
{
    if !key_matches(config, &req.key) {
        return Reply { status: Status::Forbidden, content_type: None, body: Body::Empty };
    }
    match canvas.fill_rect(req.x, req.y, req.width, req.height, req.color) {
        Ok(()) => Reply { status: Status::Created, content_type: None, body: Body::Text("success") },
        Err(e) => {
            let text = e.message();
            Reply { status: Status::BadRequest, content_type: None, body: Body::Text(text) }
        },
    }
}

/// `GET /map`: 200 with the raw map.
pub fn map(canvas: &CanvasPicture) -> (r: Reply)
    ensures
        bytes_reply(r, None, canvas@.data),
{
    let data = slice_to_vec(canvas.get_data());
    Reply { status: Status::Success, content_type: None, body: Body::Bytes(data) }
}

/// `GET /full`: 200 with the PNG bytes last rendered, as `image/png`.
pub fn full(canvas: &CanvasPicture) -> (r: Reply)
    ensures
        bytes_reply(r, Some("image/png"@), canvas@.png),
{
    Reply { status: Status::Success, content_type: Some("image/png"), body: Body::Bytes(canvas.get_bytes()) }
}

/// The number of players online after a `POST /players`.
pub open spec fn players_after(config: &AppConfig, count: u32, req: &SetPlayersRequest) -> u32 {
    if authorized(config, &req.key) {
        req.count
    } else {
        count
    }
}

/// `POST /players`: with the right key, stores the count and answers 200
/// `success`; with another key, keeps the count and answers 403
/// `invalid key`.
pub fn set_online_players(config: &AppConfig, count: &mut u32, req: &SetPlayersRequest) -> (r:
    Reply)
    ensures
        *final(count) == players_after(config, *old(count), req),
        *final(count) == if req.key@ == config.place_key@ {
            req.count
        } else {
            *old(count)
        },
        authorized(config, &req.key) ==> text_reply(r, Status::Success, "success"@),
        !authorized(config, &req.key) ==> text_reply(r, Status::Forbidden, "invalid key"@),
{
    if !key_matches(config, &req.key) {
        return Reply { status: Status::Forbidden, content_type: None, body: Body::Text("invalid key") };
    }
    *count = req.count;
    Reply { status: Status::Success, content_type: None, body: Body::Text("success") }
}

/// After `POST /players` with the right key, `GET /players` answers the
/// count that was posted; after one with another key, it answers what it
/// answered before.
pub proof fn lemma_players_read_back(config: &AppConfig, count: u32, req: &SetPlayersRequest)
    ensures
        authorized(config, &req.key) ==> decimal(players_after(config, count, req) as nat)
            == decimal(req.count as nat),
        !authorized(config, &req.key) ==> decimal(players_after(config, count, req) as nat)
            == decimal(count as nat),
{
}

/// `GET /players`: 200 with the count in decimal.
pub fn get_online_players(count: u32) -> (r: Reply)
    ensures
        bytes_reply(r, None, decimal(count as nat)),
        r.body matches Body::Bytes(b) && all_digits(b@) && digits_value(b@) == count && (b@[0]
            != 48 || b@.len() == 1),
{
    Reply { status: Status::Success, content_type: None, body: Body::Bytes(decimal_bytes(count)) }
}

} // verus!
