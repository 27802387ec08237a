//! The cursor a page end carries: a position sealed to the read it belongs to.
//!
//! The route, the format, the view, the view's incarnation, the session's authorisation-data hash
//! and, on the artifacts route, the layer, its entity and the level named are the associated data.
//! Every way a cursor fails to open is one refusal, and no position in one is used before it has
//! opened.

use vstd::bytes::{
    lemma_auto_spec_u32_to_from_le_bytes, lemma_auto_spec_u64_to_from_le_bytes,
    spec_u32_from_le_bytes, spec_u32_to_le_bytes, spec_u64_from_le_bytes, spec_u64_to_le_bytes,
    u32_from_le_bytes, u32_to_le_bytes, u64_from_le_bytes, u64_to_le_bytes,
};
use vstd::prelude::*;
use vstd::slice::slice_subrange;
use vstd::utf8::encode_utf8;

use crate::hashing::{sha256, sha256_of};
use crate::records::sealing::{
    base64_of, decode, decrypt, encode, encrypt, fresh_nonce, opened_of, sealed_of, unbase64_of,
    MAX_MESSAGE_LEN, TAG_LEN,
};
use crate::records::walk::Position;
use crate::records::RecordsOrder;
use crate::text::{byte_len, lemma_encoding_is_injective};

verus! {

/// The sealed payload's layout. A cursor of another format does not open.
pub const FORMAT: u8 = 4;

/// How long a nonce is.
pub const NONCE_LEN: usize = 24;

/// `idset, order, has_scan, scan (u32, u64), stretch`, little-endian.
pub const PAYLOAD_LEN: usize = 22;

/// `idset, has_scan, level, ordinal`, little-endian.
pub const ARTIFACTS_PAYLOAD_LEN: usize = 13;

/// A cursor that does not open, or that opened and does not parse.
#[derive(Clone, Copy, Debug, PartialEq, Eq, Structural)]
pub struct CursorRefused;

/// The route a cursor was issued on.
#[derive(Clone, Copy, Debug, PartialEq, Eq, Structural)]
pub enum Route {
    Items,
    Artifacts,
}

impl Route {
    /// The byte a route is bound by.
    pub open spec fn code(self) -> u8 {
        match self {
            Route::Items => 1,
            Route::Artifacts => 2,
        }
    }

    fn byte(self) -> (code: u8)
        ensures
            code == self.code(),
    {
        match self {
            Route::Items => 1,
            Route::Artifacts => 2,
        }
    }
}

/// The layer an artifacts cursor is bound to.
#[derive(Clone, Debug, PartialEq, Eq)]
pub struct LayerBinding {
    pub name: String,
    pub entity: u64,
    pub level: Option<u32>,
}

/// What a cursor is bound to besides its payload.
#[derive(Clone, Debug, PartialEq, Eq)]
pub struct Binding {
    pub route: Route,
    pub view: String,
    pub incarnation: u64,
    pub auth_data_hash: [u8; 32],
    /// The layer an artifacts read is of.
    pub layer: Option<LayerBinding>,
}

/// A text as its length and its bytes.
pub open spec fn framed(text: Seq<char>) -> Seq<u8> {
    spec_u64_to_le_bytes(byte_len(text) as u64) + encode_utf8(text)
}

/// What an optional level is bound by.
pub open spec fn level_bytes(level: Option<u32>) -> Seq<u8> {
    match level {
        None => seq![0u8],
        Some(level) => seq![1u8] + spec_u32_to_le_bytes(level),
    }
}

/// What an optional layer is bound by.
pub open spec fn layer_bytes(layer: Option<LayerBinding>) -> Seq<u8> {
    match layer {
        None => seq![0u8],
        Some(layer) => seq![1u8] + (framed(layer.name@) + (spec_u64_to_le_bytes(layer.entity)
            + level_bytes(layer.level))),
    }
}

/// The prefix every cursor's associated data has.
pub open spec fn domain() -> Seq<u8> {
    encode_utf8("tessera-records-cursor-v1"@)
}

impl Binding {
    /// The texts are no longer than their lengths can say.
    pub open spec fn wf(&self) -> bool {
        &&& byte_len(self.view@) <= u64::MAX
        &&& self.layer matches Some(layer) ==> byte_len(layer.name@) <= u64::MAX
    }

    /// The associated data a cursor is sealed with.
    pub open spec fn data(&self) -> Seq<u8> {
        domain() + (seq![FORMAT, self.route.code()] + (framed(self.view@) + (spec_u64_to_le_bytes(
            self.incarnation,
        ) + (self.auth_data_hash@ + layer_bytes(self.layer)))))
    }

    /// The associated data a cursor is sealed with.
    pub fn associated_data(&self) -> (data: Vec<u8>)
        ensures
            data@ == self.data(),
    {
        let mut data: Vec<u8> = Vec::new();
        append(&mut data, "tessera-records-cursor-v1".as_bytes());
        data.push(FORMAT);
        data.push(self.route.byte());
        append_text(&mut data, self.view.as_str());
        append(&mut data, u64_to_le_bytes(self.incarnation).as_slice());
        append(&mut data, self.auth_data_hash.as_slice());
        append_layer(&mut data, &self.layer);
        assert(data@ =~= self.data());
        data
    }
}

/// Bytes onto the end of a list.
fn append(data: &mut Vec<u8>, bytes: &[u8])
    ensures
        final(data)@ == old(data)@ + bytes@,
{
    let mut i: usize = 0;
    assert(bytes@.take(0) =~= Seq::<u8>::empty());
    assert(data@ =~= data@ + bytes@.take(0));
    while i < bytes.len()
        invariant
            i <= bytes@.len(),
            data@ == old(data)@ + bytes@.take(i as int),
        decreases bytes@.len() - i,
    {
        data.push(bytes[i]);
        assert(bytes@.take(i + 1) =~= bytes@.take(i as int).push(bytes@[i as int]));
        i += 1;
        assert(data@ =~= old(data)@ + bytes@.take(i as int));
    }
    assert(bytes@.take(i as int) =~= bytes@);
}

/// A text's length and its bytes onto the end of a list.
fn append_text(data: &mut Vec<u8>, text: &str)
    ensures
        final(data)@ == old(data)@ + framed(text@),
{
    let bytes = text.as_bytes();
    append(data, u64_to_le_bytes(bytes.len() as u64).as_slice());
    append(data, bytes);
    assert(data@ =~= old(data)@ + framed(text@));
}

/// What an optional level is bound by onto the end of a list.
fn append_level(data: &mut Vec<u8>, level: Option<u32>)
    ensures
        final(data)@ == old(data)@ + level_bytes(level),
{
    match level {
        None => {
            data.push(0);
        },
        Some(level) => {
            data.push(1);
            append(data, u32_to_le_bytes(level).as_slice());
        },
    }
    assert(data@ =~= old(data)@ + level_bytes(level));
}

/// What an optional layer is bound by onto the end of a list.
fn append_layer(data: &mut Vec<u8>, layer: &Option<LayerBinding>)
    ensures
        final(data)@ == old(data)@ + layer_bytes(*layer),
{
    match layer {
        None => {
            data.push(0);
        },
        Some(layer) => {
            data.push(1);
            append_text(data, layer.name.as_str());
            append(data, u64_to_le_bytes(layer.entity).as_slice());
            append_level(data, layer.level);
        },
    }
    assert(data@ =~= old(data)@ + layer_bytes(*layer));
}

/// Sequences that agree, whose first parts are equally long, agree in both parts.
proof fn lemma_split(a: Seq<u8>, x: Seq<u8>, b: Seq<u8>, y: Seq<u8>)
    requires
        a + x == b + y,
        a.len() == b.len(),
    ensures
        a == b,
        x == y,
{
    let whole = a + x;
    assert(a =~= whole.subrange(0, a.len() as int));
    assert(b =~= (b + y).subrange(0, a.len() as int));
    assert(x =~= whole.subrange(a.len() as int, whole.len() as int));
    assert(y =~= (b + y).subrange(a.len() as int, whole.len() as int));
}

/// A framed text and what follows it can be told apart.
proof fn lemma_framed(a: Seq<char>, x: Seq<u8>, b: Seq<char>, y: Seq<u8>)
    requires
        framed(a) + x == framed(b) + y,
        byte_len(a) <= u64::MAX,
        byte_len(b) <= u64::MAX,
    ensures
        a == b,
        x == y,
{
    lemma_auto_spec_u64_to_from_le_bytes();
    let la = spec_u64_to_le_bytes(byte_len(a) as u64);
    let lb = spec_u64_to_le_bytes(byte_len(b) as u64);
    assert(framed(a) + x =~= la + (encode_utf8(a) + x));
    assert(framed(b) + y =~= lb + (encode_utf8(b) + y));
    lemma_split(la, encode_utf8(a) + x, lb, encode_utf8(b) + y);
    lemma_split(encode_utf8(a), x, encode_utf8(b), y);
    lemma_encoding_is_injective(a, b);
}

/// Whether two bindings name one read.
pub open spec fn binding_is(a: Binding, b: Binding) -> bool {
    &&& a.route == b.route
    &&& a.view@ == b.view@
    &&& a.incarnation == b.incarnation
    &&& a.auth_data_hash@ == b.auth_data_hash@
    &&& match (a.layer, b.layer) {
        (None, None) => true,
        (Some(x), Some(y)) => x.name@ == y.name@ && x.entity == y.entity && x.level == y.level,
        _ => false,
    }
}

/// Bindings that are not the same read have different associated data: a cursor presented under any
/// other binding is opened with data it was not sealed with.
pub proof fn law_each_binding_has_data_of_its_own(a: Binding, b: Binding)
    requires
        a.wf(),
        b.wf(),
        a.data() == b.data(),
    ensures
        binding_is(a, b),
{
    lemma_auto_spec_u64_to_from_le_bytes();
    lemma_auto_spec_u32_to_from_le_bytes();
    let ra = a.auth_data_hash@ + layer_bytes(a.layer);
    let rb = b.auth_data_hash@ + layer_bytes(b.layer);
    let ia = spec_u64_to_le_bytes(a.incarnation);
    let ib = spec_u64_to_le_bytes(b.incarnation);
    let va = framed(a.view@) + (ia + ra);
    let vb = framed(b.view@) + (ib + rb);
    let ha = seq![FORMAT, a.route.code()];
    let hb = seq![FORMAT, b.route.code()];
    lemma_split(domain(), ha + va, domain(), hb + vb);
    lemma_split(ha, va, hb, vb);
    assert(ha[1] == hb[1]);
    lemma_framed(a.view@, ia + ra, b.view@, ib + rb);
    lemma_split(ia, ra, ib, rb);
    lemma_split(a.auth_data_hash@, layer_bytes(a.layer), b.auth_data_hash@, layer_bytes(b.layer));
    let la = layer_bytes(a.layer);
    let lb = layer_bytes(b.layer);
    assert(la[0] == lb[0]);
    match (a.layer, b.layer) {
        (Some(x), Some(y)) => {
            let ea = spec_u64_to_le_bytes(x.entity);
            let eb = spec_u64_to_le_bytes(y.entity);
            let na = framed(x.name@) + (ea + level_bytes(x.level));
            let nb = framed(y.name@) + (eb + level_bytes(y.level));
            lemma_split(seq![1u8], na, seq![1u8], nb);
            lemma_framed(x.name@, ea + level_bytes(x.level), y.name@, eb + level_bytes(y.level));
            lemma_split(ea, level_bytes(x.level), eb, level_bytes(y.level));
            assert(level_bytes(x.level)[0] == level_bytes(y.level)[0]);
            match (x.level, y.level) {
                (Some(m), Some(n)) => {
                    lemma_split(
                        seq![1u8],
                        spec_u32_to_le_bytes(m),
                        seq![1u8],
                        spec_u32_to_le_bytes(n),
                    );
                },
                _ => {},
            }
        },
        _ => {},
    }
}

/// The sealing key.
#[derive(Clone, Copy, Debug)]
pub struct CursorKey {
    pub bytes: [u8; 32],
}

/// The token of a payload sealed with a nonce: the nonce and the sealed payload, as base64url.
pub open spec fn token_of(key: CursorKey, binding: Binding, nonce: Seq<u8>, payload: Seq<u8>) -> Seq<
    char,
> {
    base64_of(nonce + sealed_of(key.bytes@, nonce, binding.data(), payload))
}

/// What a token opens to under a binding, if it opens. One that holds no more than a nonce, or more
/// than the cipher opens, does not.
pub open spec fn payload_of(key: CursorKey, binding: Binding, token: Seq<char>) -> Option<Seq<u8>> {
    match unbase64_of(token) {
        None => None,
        Some(raw) => if raw.len() <= NONCE_LEN || raw.len() - NONCE_LEN > MAX_MESSAGE_LEN
            + TAG_LEN {
            None
        } else {
            opened_of(
                key.bytes@,
                raw.take(NONCE_LEN as int),
                binding.data(),
                raw.skip(NONCE_LEN as int),
            )
        },
    }
}

impl CursorKey {
    /// The key of a deployment whose identity key is spelled `identity_key_hex`.
    pub fn of(identity_key_hex: &str) -> (key: CursorKey)
        ensures
            key.bytes@ == sha256_of(
                encode_utf8("tessera-records-cursor-key-v1"@) + encode_utf8(identity_key_hex@),
            ),
    {
        let mut message: Vec<u8> = Vec::new();
        append(&mut message, "tessera-records-cursor-key-v1".as_bytes());
        append(&mut message, identity_key_hex.as_bytes());
        assert(message@ =~= encode_utf8("tessera-records-cursor-key-v1"@) + encode_utf8(
            identity_key_hex@,
        ));
        CursorKey { bytes: sha256(message.as_slice()) }
    }

    /// `payload` sealed under `binding` with a nonce. It opens under the same binding to the
    /// payload.
    pub fn seal_with(&self, binding: &Binding, nonce: &[u8; 24], payload: &[u8]) -> (token: String)
        requires
            payload@.len() <= MAX_MESSAGE_LEN,
            (payload@.len() + 40) / 3 * 4 + 3 <= usize::MAX / 2,
        ensures
            token@ == token_of(*self, *binding, nonce@, payload@),
            payload_of(*self, *binding, token@) == Some(payload@),
    {
        let data = binding.associated_data();
        let sealed = encrypt(&self.bytes, nonce, data.as_slice(), payload);
        let mut raw: Vec<u8> = Vec::new();
        append(&mut raw, nonce.as_slice());
        append(&mut raw, sealed.as_slice());
        proof {
            assert(raw@ =~= nonce@ + sealed@);
            assert(raw@.take(NONCE_LEN as int) =~= nonce@);
            assert(raw@.skip(NONCE_LEN as int) =~= sealed@);
        }
        encode(raw.as_slice())
    }

    /// `payload` sealed under `binding` with a random nonce. It opens under the same binding to the
    /// payload.
    pub fn seal(&self, binding: &Binding, payload: &[u8]) -> (token: String)
        requires
            payload@.len() <= MAX_MESSAGE_LEN,
            (payload@.len() + 40) / 3 * 4 + 3 <= usize::MAX / 2,
        ensures
            payload_of(*self, *binding, token@) == Some(payload@),
            exists|nonce: Seq<u8>|
                nonce.len() == NONCE_LEN && token@ == #[trigger] token_of(
                    *self,
                    *binding,
                    nonce,
                    payload@,
                ),
    {
        let nonce = fresh_nonce();
        let token = self.seal_with(binding, &nonce, payload);
        assert(token@ == token_of(*self, *binding, nonce@, payload@));
        token
    }

    /// The payload that a token seals under a binding, or the one refusal.
    pub fn open(&self, binding: &Binding, token: &str) -> (out: Result<Vec<u8>, CursorRefused>)
        ensures
            out is Ok <==> payload_of(*self, *binding, token@) is Some,
            out matches Ok(payload) ==> payload_of(*self, *binding, token@) == Some(payload@),
    {
        let raw = match decode(token) {
            Some(raw) => raw,
            None => return Err(CursorRefused),
        };
        if raw.len() <= NONCE_LEN || (raw.len() - NONCE_LEN) as u64 > MAX_MESSAGE_LEN + TAG_LEN {
            return Err(CursorRefused);
        }
        let mut nonce: [u8; 24] = [0u8;24];
        let mut i: usize = 0;
        while i < 24
            invariant
                i <= 24,
                raw@.len() > NONCE_LEN,
                forall|k: int| 0 <= k < i ==> nonce@[k] == raw@[k],
            decreases 24 - i,
        {
            nonce[i] = raw[i];
            i += 1;
        }
        let sealed = slice_subrange(raw.as_slice(), NONCE_LEN, raw.len());
        proof {
            assert(nonce@ =~= raw@.take(NONCE_LEN as int));
            assert(sealed@ =~= raw@.skip(NONCE_LEN as int));
        }
        let data = binding.associated_data();
        match decrypt(&self.bytes, &nonce, data.as_slice(), sealed) {
            Some(message) => Ok(message),
            None => Err(CursorRefused),
        }
    }
}

/// An items cursor's payload.
#[derive(Clone, Copy, Debug, PartialEq, Eq)]
pub struct ItemsCursor {
    pub idset: u32,
    pub position: Position,
    /// The rows the read's next stretch spans.
    pub stretch: u32,
}

/// The items cursor that a payload encodes, if it encodes one.
pub open spec fn items_cursor_of(payload: Seq<u8>) -> Option<ItemsCursor> {
    if payload.len() != PAYLOAD_LEN || payload[5] > 1 || payload[4] > 1 {
        None
    } else {
        Some(
            ItemsCursor {
                idset: spec_u32_from_le_bytes(payload.subrange(0, 4)),
                position: Position {
                    order: if payload[4] == 0 {
                        RecordsOrder::ByMap
                    } else {
                        RecordsOrder::Stored
                    },
                    scan: if payload[5] == 1 {
                        Some(
                            (
                                spec_u32_from_le_bytes(payload.subrange(6, 10)),
                                spec_u64_from_le_bytes(payload.subrange(10, 18)),
                            ),
                        )
                    } else {
                        None
                    },
                },
                stretch: spec_u32_from_le_bytes(payload.subrange(18, 22)),
            },
        )
    }
}

/// The bytes an optional scan position is held in.
pub open spec fn scan_bytes(scan: Option<(u32, u64)>) -> Seq<u8> {
    match scan {
        None => seq![0u8] + (spec_u32_to_le_bytes(0) + spec_u64_to_le_bytes(0)),
        Some(key) => seq![1u8] + (spec_u32_to_le_bytes(key.0) + spec_u64_to_le_bytes(key.1)),
    }
}

impl ItemsCursor {
    /// The cursor's payload.
    pub open spec fn bytes(&self) -> Seq<u8> {
        spec_u32_to_le_bytes(self.idset) + (seq![
            match self.position.order {
                RecordsOrder::ByMap => 0u8,
                RecordsOrder::Stored => 1u8,
            },
        ] + (scan_bytes(self.position.scan) + spec_u32_to_le_bytes(self.stretch)))
    }

    /// The cursor's payload: it decodes to the cursor.
    pub fn encode(&self) -> (payload: Vec<u8>)
        ensures
            payload@ == self.bytes(),
            payload@.len() == PAYLOAD_LEN,
            items_cursor_of(payload@) == Some(*self),
    {
        let mut payload: Vec<u8> = Vec::new();
        append(&mut payload, u32_to_le_bytes(self.idset).as_slice());
        payload.push(
            match self.position.order {
                RecordsOrder::ByMap => 0,
                RecordsOrder::Stored => 1,
            },
        );
        let (flag, a, b): (u8, u32, u64) = match self.position.scan {
            None => (0, 0, 0),
            Some((a, b)) => (1, a, b),
        };
        payload.push(flag);
        append(&mut payload, u32_to_le_bytes(a).as_slice());
        append(&mut payload, u64_to_le_bytes(b).as_slice());
        append(&mut payload, u32_to_le_bytes(self.stretch).as_slice());
        proof {
            assert(payload@ =~= self.bytes());
            law_an_items_cursor_survives_its_payload(*self);
        }
        payload
    }

    /// The cursor a payload encodes, or the one refusal.
    pub fn decode(payload: &[u8]) -> (out: Result<ItemsCursor, CursorRefused>)
        ensures
            out is Ok <==> items_cursor_of(payload@) is Some,
            out matches Ok(cursor) ==> items_cursor_of(payload@) == Some(cursor),
    {
        if payload.len() != PAYLOAD_LEN || payload[5] > 1 {
            return Err(CursorRefused);
        }
        let idset: u32 = u32_from_le_bytes(slice_subrange(payload, 0, 4));
        let scan: Option<(u32, u64)> = if payload[5] == 1 {
            Some(
                (
                    u32_from_le_bytes(slice_subrange(payload, 6, 10)),
                    u64_from_le_bytes(slice_subrange(payload, 10, 18)),
                ),
            )
        } else {
            None
        };
        let order: RecordsOrder = if payload[4] == 0 {
            RecordsOrder::ByMap
        } else if payload[4] == 1 {
            RecordsOrder::Stored
        } else {
            return Err(CursorRefused);
        };
        let stretch: u32 = u32_from_le_bytes(slice_subrange(payload, 18, 22));
        Ok(ItemsCursor { idset, position: Position { order, scan }, stretch })
    }
}

/// An items cursor's payload decodes to the cursor.
pub proof fn law_an_items_cursor_survives_its_payload(cursor: ItemsCursor)
    ensures
        cursor.bytes().len() == PAYLOAD_LEN,
        items_cursor_of(cursor.bytes()) == Some(cursor),
{
    lemma_auto_spec_u64_to_from_le_bytes();
    lemma_auto_spec_u32_to_from_le_bytes();
    let payload = cursor.bytes();
    assert(spec_u32_to_le_bytes(0).len() == 4);
    assert(spec_u64_to_le_bytes(0).len() == 8);
    assert(spec_u32_to_le_bytes(cursor.idset).len() == 4);
    assert(spec_u32_to_le_bytes(cursor.stretch).len() == 4);
    assert(payload.subrange(0, 4) =~= spec_u32_to_le_bytes(cursor.idset));
    match cursor.position.scan {
        None => {},
        Some((a, b)) => {
            assert(spec_u32_to_le_bytes(a).len() == 4);
            assert(spec_u64_to_le_bytes(b).len() == 8);
            assert(payload.subrange(6, 10) =~= spec_u32_to_le_bytes(a));
            assert(payload.subrange(10, 18) =~= spec_u64_to_le_bytes(b));
        },
    }
    assert(payload.subrange(18, 22) =~= spec_u32_to_le_bytes(cursor.stretch));
}

/// An artifacts cursor's payload: the last `(level, ordinal)` returned or passed over.
#[derive(Clone, Copy, Debug, PartialEq, Eq)]
pub struct ArtifactsCursor {
    pub idset: u32,
    pub scan: Option<(u32, u32)>,
}

/// The artifacts cursor that a payload encodes, if it encodes one.
pub open spec fn artifacts_cursor_of(payload: Seq<u8>) -> Option<ArtifactsCursor> {
    if payload.len() != ARTIFACTS_PAYLOAD_LEN || payload[4] > 1 {
        None
    } else {
        Some(
            ArtifactsCursor {
                idset: spec_u32_from_le_bytes(payload.subrange(0, 4)),
                scan: if payload[4] == 1 {
                    Some(
                        (
                            spec_u32_from_le_bytes(payload.subrange(5, 9)),
                            spec_u32_from_le_bytes(payload.subrange(9, 13)),
                        ),
                    )
                } else {
                    None
                },
            },
        )
    }
}

impl ArtifactsCursor {
    /// The cursor's payload.
    pub open spec fn bytes(&self) -> Seq<u8> {
        spec_u32_to_le_bytes(self.idset) + match self.scan {
            None => seq![0u8] + (spec_u32_to_le_bytes(0) + spec_u32_to_le_bytes(0)),
            Some(at) => seq![1u8] + (spec_u32_to_le_bytes(at.0) + spec_u32_to_le_bytes(at.1)),
        }
    }

    /// The cursor's payload: it decodes to the cursor.
    pub fn encode(&self) -> (payload: Vec<u8>)
        ensures
            payload@ == self.bytes(),
            payload@.len() == ARTIFACTS_PAYLOAD_LEN,
            artifacts_cursor_of(payload@) == Some(*self),
    {
        let mut payload: Vec<u8> = Vec::new();
        append(&mut payload, u32_to_le_bytes(self.idset).as_slice());
        let (flag, level, ordinal): (u8, u32, u32) = match self.scan {
            None => (0, 0, 0),
            Some((level, ordinal)) => (1, level, ordinal),
        };
        payload.push(flag);
        append(&mut payload, u32_to_le_bytes(level).as_slice());
        append(&mut payload, u32_to_le_bytes(ordinal).as_slice());
        proof {
            assert(payload@ =~= self.bytes());
            law_an_artifacts_cursor_survives_its_payload(*self);
        }
        payload
    }

    /// The cursor a payload encodes, or the one refusal.
    pub fn decode(payload: &[u8]) -> (out: Result<ArtifactsCursor, CursorRefused>)
        ensures
            out is Ok <==> artifacts_cursor_of(payload@) is Some,
            out matches Ok(cursor) ==> artifacts_cursor_of(payload@) == Some(cursor),
    {
        if payload.len() != ARTIFACTS_PAYLOAD_LEN || payload[4] > 1 {
            return Err(CursorRefused);
        }
        let idset: u32 = u32_from_le_bytes(slice_subrange(payload, 0, 4));
        let scan: Option<(u32, u32)> = if payload[4] == 1 {
            Some(
                (
                    u32_from_le_bytes(slice_subrange(payload, 5, 9)),
                    u32_from_le_bytes(slice_subrange(payload, 9, 13)),
                ),
            )
        } else {
            None
        };
        Ok(ArtifactsCursor { idset, scan })
    }
}

/// An artifacts cursor's payload decodes to the cursor.
pub proof fn law_an_artifacts_cursor_survives_its_payload(cursor: ArtifactsCursor)
    ensures
        cursor.bytes().len() == ARTIFACTS_PAYLOAD_LEN,
        artifacts_cursor_of(cursor.bytes()) == Some(cursor),
{
    lemma_auto_spec_u32_to_from_le_bytes();
    let payload = cursor.bytes();
    assert(spec_u32_to_le_bytes(0).len() == 4);
    assert(spec_u32_to_le_bytes(cursor.idset).len() == 4);
    assert(payload.subrange(0, 4) =~= spec_u32_to_le_bytes(cursor.idset));
    match cursor.scan {
        None => {},
        Some((a, b)) => {
            assert(spec_u32_to_le_bytes(a).len() == 4);
            assert(spec_u32_to_le_bytes(b).len() == 4);
            assert(payload.subrange(5, 9) =~= spec_u32_to_le_bytes(a));
            assert(payload.subrange(9, 13) =~= spec_u32_to_le_bytes(b));
        },
    }
}

/// Two reads whose cursors are sealed to the same data agree in the route, the view and its
/// incarnation, the session's authorisation data, and the layer, its entity and the level named:
/// a cursor of one that differs in any of them is sealed to other data.
pub proof fn law_reads_that_differ_are_sealed_apart(a: Binding, b: Binding)
    requires
        a.wf(),
        b.wf(),
    ensures
        a.route != b.route ==> a.data() != b.data(),
        a.view@ != b.view@ ==> a.data() != b.data(),
        a.incarnation != b.incarnation ==> a.data() != b.data(),
        a.auth_data_hash@ != b.auth_data_hash@ ==> a.data() != b.data(),
        (a.layer is Some) != (b.layer is Some) ==> a.data() != b.data(),
        a.layer is Some && b.layer is Some ==> {
            &&& a.layer->0.name@ != b.layer->0.name@ ==> a.data() != b.data()
            &&& a.layer->0.entity != b.layer->0.entity ==> a.data() != b.data()
            &&& a.layer->0.level != b.layer->0.level ==> a.data() != b.data()
        },
{
    if a.data() == b.data() {
        law_each_binding_has_data_of_its_own(a, b);
    }
}

/// A payload opens to a cursor exactly where it is as long as one and its two marks are zero or
/// one; the cursor's parts are then the numbers at their places, the least byte first.
pub proof fn law_an_items_cursor_is_read_at_its_places(payload: Seq<u8>)
    ensures
        items_cursor_of(payload) is Some <==> payload.len() == 22 && payload[4] <= 1 && payload[5]
            <= 1,
        items_cursor_of(payload) matches Some(cursor) ==> {
            &&& cursor.idset == spec_u32_from_le_bytes(payload.subrange(0, 4))
            &&& cursor.position.order == RecordsOrder::ByMap <==> payload[4] == 0
            &&& cursor.position.scan is Some <==> payload[5] == 1
            &&& cursor.position.scan matches Some(key) ==> key == (
                spec_u32_from_le_bytes(payload.subrange(6, 10)),
                spec_u64_from_le_bytes(payload.subrange(10, 18)),
            )
            &&& cursor.stretch == spec_u32_from_le_bytes(payload.subrange(18, 22))
        },
{
}

/// A payload opens to an artifacts cursor exactly where it is as long as one and its mark is zero
/// or one; the cursor's parts are then the numbers at their places, the least byte first.
pub proof fn law_an_artifacts_cursor_is_read_at_its_places(payload: Seq<u8>)
    ensures
        artifacts_cursor_of(payload) is Some <==> payload.len() == 13 && payload[4] <= 1,
        artifacts_cursor_of(payload) matches Some(cursor) ==> {
            &&& cursor.idset == spec_u32_from_le_bytes(payload.subrange(0, 4))
            &&& cursor.scan is Some <==> payload[4] == 1
            &&& cursor.scan matches Some(at) ==> at == (
                spec_u32_from_le_bytes(payload.subrange(5, 9)),
                spec_u32_from_le_bytes(payload.subrange(9, 13)),
            )
        },
{
}

} // verus!
