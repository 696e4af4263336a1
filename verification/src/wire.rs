//! The packets that lights understand.
use vstd::prelude::*;
use vstd::string::StringExecFns;
use crate::access::{hex, hex_text};
use crate::caps::Capabilities;
use crate::mode::{Hue, Kelvin, Mode, Percent};
use crate::text::{decimal, owned, push_decimal};

verus! {

/// One complete Neewer BLE command packet.
#[derive(Clone, Debug, PartialEq, Eq)]
pub struct Packet(pub(crate) Vec<u8>);

impl View for Packet {
    type V = Seq<u8>;

    open(crate) spec fn view(&self) -> Seq<u8> {
        self.0@
    }
}

impl Packet {
    /// Returns the packet bytes.
    pub fn as_bytes(&self) -> (bytes: &[u8])
        ensures
            bytes@ == self@,
    {
        self.0.as_slice()
    }
}

/// The one or two packets needed to apply a mode.
#[derive(Clone, Debug, PartialEq, Eq)]
pub struct Encoded(pub(crate) Vec<Packet>);

impl View for Encoded {
    type V = Seq<Seq<u8>>;

    open(crate) spec fn view(&self) -> Seq<Seq<u8>> {
        self.0@.map_values(|packet: Packet| packet@)
    }
}

impl Encoded {
    /// Returns the packets in transmission order.
    pub fn packets(&self) -> (packets: &[Packet])
        ensures
            packets@.map_values(|packet: Packet| packet@) == self@,
    {
        self.0.as_slice()
    }
}

/// The sum of some bytes.
pub open spec fn byte_sum(bytes: Seq<u8>) -> int
    decreases bytes.len(),
{
    if bytes.len() == 0 {
        0
    } else {
        byte_sum(bytes.drop_last()) + bytes.last()
    }
}

/// The byte that a packet with these first bytes ends in.
pub open spec fn checksum_byte(bytes: Seq<u8>) -> u8 {
    (byte_sum(bytes) % 256) as u8
}

/// Calculates the protocol's wrapping byte-sum checksum.
pub fn checksum(bytes_without_checksum: &[u8]) -> (sum: u8)
    ensures
        sum == checksum_byte(bytes_without_checksum@),
{
    let mut sum: u8 = 0;
    let mut i: usize = 0;
    while i < bytes_without_checksum.len()
        invariant
            i <= bytes_without_checksum@.len(),
            sum == byte_sum(bytes_without_checksum@.take(i as int)) % 256,
        decreases bytes_without_checksum.len() - i,
    {
        proof {
            let next = bytes_without_checksum@.take(i + 1);
            assert(next.drop_last() =~= bytes_without_checksum@.take(i as int));
        }
        sum = sum.wrapping_add(bytes_without_checksum[i]);
        i += 1;
    }
    assert(bytes_without_checksum@.take(i as int) =~= bytes_without_checksum@);
    sum
}

/// The bytes of a packet before its checksum.
pub open spec fn packet_body(opcode: u8, payload: Seq<u8>) -> Seq<u8> {
    seq![0x78u8, opcode, (payload.len() % 256) as u8] + payload
}

/// The bytes of a packet: a prefix, an operation, the payload's length, the
/// payload and a checksum.
pub open spec fn packet_bytes(opcode: u8, payload: Seq<u8>) -> Seq<u8> {
    packet_body(opcode, payload).push(checksum_byte(packet_body(opcode, payload)))
}

/// Frames a payload as a packet.
pub fn packet(opcode: u8, payload: &[u8]) -> (r: Packet)
    ensures
        r@ == packet_bytes(opcode, payload@),
{
    let mut bytes: Vec<u8> = Vec::new();
    bytes.push(0x78);
    bytes.push(opcode);
    bytes.push((payload.len() % 256) as u8);
    bytes.extend_from_slice(payload);
    assert(bytes@ =~= packet_body(opcode, payload@));
    let sum: u8 = checksum(bytes.as_slice());
    bytes.push(sum);
    Packet(bytes)
}

/// The low and the high byte of a 16-bit value.
pub open spec fn little_endian(value: int) -> Seq<u8> {
    seq![(value % 256) as u8, (value / 256) as u8]
}

/// The packets that apply a mode, in transmission order.
pub open spec fn encoding(mode: Mode, split: bool) -> Seq<Seq<u8>> {
    match mode {
        Mode::On => seq![packet_bytes(0x81, seq![1])],
        Mode::Off => seq![packet_bytes(0x81, seq![2])],
        Mode::Cct { temp, bri } => if split {
            seq![
                packet_bytes(0x82, seq![bri@ as u8]),
                packet_bytes(0x83, seq![(temp@ / 100) as u8]),
            ]
        } else {
            seq![packet_bytes(0x87, seq![bri@ as u8, (temp@ / 100) as u8])]
        },
        Mode::Hsi { hue, sat, bri } => seq![
            packet_bytes(0x86, little_endian(hue@) + seq![sat@ as u8, bri@ as u8]),
        ],
        Mode::Scene { scene, bri } => seq![packet_bytes(0x88, seq![bri@ as u8, scene@ as u8])],
    }
}

fn single(opcode: u8, payload: &[u8]) -> (r: Encoded)
    ensures
        r@ == seq![packet_bytes(opcode, payload@)],
{
    let mut packets: Vec<Packet> = Vec::new();
    packets.push(packet(opcode, payload));
    let encoded = Encoded(packets);
    assert(encoded@ =~= seq![packet_bytes(opcode, payload@)]);
    encoded
}

/// Encodes a mode as one or two device packets.
pub fn encode(mode: Mode, caps: &Capabilities) -> (r: Encoded)
    ensures
        r@ == encoding(mode, caps.cct_split_packets),
{
    match mode {
        Mode::On => {
            let payload: [u8; 1] = [1];
            assert(payload@ =~= seq![1u8]);
            single(0x81, &payload)
        },
        Mode::Off => {
            let payload: [u8; 1] = [2];
            assert(payload@ =~= seq![2u8]);
            single(0x81, &payload)
        },
        Mode::Cct { temp, bri } => {
            let bri: u8 = bri.get();
            let hundreds: u8 = (temp.get() / 100) as u8;
            if caps.cct_split_packets {
                let first: [u8; 1] = [bri];
                let second: [u8; 1] = [hundreds];
                assert(first@ =~= seq![bri]);
                assert(second@ =~= seq![hundreds]);
                let mut packets: Vec<Packet> = Vec::new();
                packets.push(packet(0x82, &first));
                packets.push(packet(0x83, &second));
                let encoded = Encoded(packets);
                assert(encoded@ =~= encoding(mode, true));
                encoded
            } else {
                let payload: [u8; 2] = [bri, hundreds];
                assert(payload@ =~= seq![bri, hundreds]);
                single(0x87, &payload)
            }
        },
        Mode::Hsi { hue, sat, bri } => {
            let angle: u16 = hue.get();
            let payload: [u8; 4] = [
                (angle % 256) as u8,
                (angle / 256) as u8,
                sat.get(),
                bri.get(),
            ];
            assert(payload@ =~= little_endian(hue@) + seq![sat@ as u8, bri@ as u8]);
            single(0x86, &payload)
        },
        Mode::Scene { scene, bri } => {
            let payload: [u8; 2] = [bri.get(), scene.get()];
            assert(payload@ =~= seq![bri@ as u8, scene@ as u8]);
            single(0x88, &payload)
        },
    }
}

/// A decoded command retaining the values represented on the wire.
#[derive(Clone, Copy, PartialEq, Eq, Structural, Debug)]
pub enum Decoded {
    Power(bool),
    Cct { temp_hk: u8, bri: u8 },
    Hsi { hue: u16, sat: u8, bri: u8 },
    Scene { scene: u8, bri: u8 },
    BriOnly(u8),
    TempOnly(u8),
}

/// A malformed or unsupported wire packet.
#[allow(inconsistent_fields)]
#[derive(Clone, Copy, PartialEq, Eq, Structural, Debug)]
pub enum DecodeError {
    Truncated { actual: usize },
    WrongPrefix { actual: u8 },
    WrongLength { declared: usize, actual: usize },
    BadChecksum { expected: u8, actual: u8 },
    Unsupported { opcode: u8, length: usize },
    InvalidPower(u8),
}

/// A byte as `0x` and two hexadecimal digits.
pub open spec fn hex_byte(byte: u8) -> Seq<char> {
    "0x"@ + hex(seq![byte])
}

fn push_hex_byte(out: &mut String, byte: u8)
    ensures
        final(out)@ == old(out)@ + hex_byte(byte),
{
    let bytes: [u8; 1] = [byte];
    assert(bytes@ =~= seq![byte]);
    let digits = hex_text(&bytes);
    let ghost before = out@;
    out.append("0x");
    out.append(digits.as_str());
    assert(out@ =~= before + hex_byte(byte));
}

impl DecodeError {
    /// The error in words.
    pub open spec fn words(self) -> Seq<char> {
        match self {
            DecodeError::Truncated { actual } => "packet is truncated: expected at least 4 bytes, got "@
                + decimal(actual as nat),
            DecodeError::WrongPrefix { actual } => "invalid packet prefix "@ + hex_byte(actual),
            DecodeError::WrongLength { declared, actual } => "payload length declares "@ + decimal(
                declared as nat,
            ) + " bytes but packet contains "@ + decimal(actual as nat),
            DecodeError::BadChecksum { expected, actual } => "checksum mismatch: expected "@
                + hex_byte(expected) + ", got "@ + hex_byte(actual),
            DecodeError::Unsupported { opcode, length } => "unsupported opcode "@ + hex_byte(opcode)
                + " with payload length "@ + decimal(length as nat),
            DecodeError::InvalidPower(value) => "invalid power payload "@ + decimal(value as nat),
        }
    }

    /// Describes the error in words.
    pub fn message(&self) -> (text: String)
        ensures
            text@ == self.words(),
    {
        match self {
            DecodeError::Truncated { actual } => {
                let mut text = owned("packet is truncated: expected at least 4 bytes, got ");
                push_decimal(&mut text, *actual as u64);
                text
            },
            DecodeError::WrongPrefix { actual } => {
                let mut text = owned("invalid packet prefix ");
                push_hex_byte(&mut text, *actual);
                text
            },
            DecodeError::WrongLength { declared, actual } => {
                let mut text = owned("payload length declares ");
                push_decimal(&mut text, *declared as u64);
                text.append(" bytes but packet contains ");
                push_decimal(&mut text, *actual as u64);
                text
            },
            DecodeError::BadChecksum { expected, actual } => {
                let mut text = owned("checksum mismatch: expected ");
                push_hex_byte(&mut text, *expected);
                text.append(", got ");
                push_hex_byte(&mut text, *actual);
                text
            },
            DecodeError::Unsupported { opcode, length } => {
                let mut text = owned("unsupported opcode ");
                push_hex_byte(&mut text, *opcode);
                text.append(" with payload length ");
                push_decimal(&mut text, *length as u64);
                text
            },
            DecodeError::InvalidPower(value) => {
                let mut text = owned("invalid power payload ");
                push_decimal(&mut text, *value as u64);
                text
            },
        }
    }
}

/// What an operation with a payload commands.
pub open spec fn command(opcode: u8, payload: Seq<u8>) -> Result<Decoded, DecodeError> {
    let length = payload.len();
    if opcode == 0x81 && length == 1 {
        if payload[0] == 1 {
            Ok(Decoded::Power(true))
        } else if payload[0] == 2 {
            Ok(Decoded::Power(false))
        } else {
            Err(DecodeError::InvalidPower(payload[0]))
        }
    } else if opcode == 0x82 && length == 1 {
        Ok(Decoded::BriOnly(payload[0]))
    } else if opcode == 0x83 && length == 1 {
        Ok(Decoded::TempOnly(payload[0]))
    } else if opcode == 0x87 && length == 2 {
        Ok(Decoded::Cct { temp_hk: payload[1], bri: payload[0] })
    } else if opcode == 0x86 && length == 4 {
        Ok(
            Decoded::Hsi {
                hue: (payload[0] + 256 * payload[1]) as u16,
                sat: payload[2],
                bri: payload[3],
            },
        )
    } else if opcode == 0x88 && length == 2 {
        Ok(Decoded::Scene { scene: payload[1], bri: payload[0] })
    } else {
        Err(DecodeError::Unsupported { opcode, length: length as usize })
    }
}

/// What a raw packet decodes to: the first fault of its envelope, or its command.
pub open spec fn decoding(raw: Seq<u8>) -> Result<Decoded, DecodeError> {
    let len = raw.len() as int;
    if len < 4 {
        Err(DecodeError::Truncated { actual: len as usize })
    } else if raw[0] != 0x78 {
        Err(DecodeError::WrongPrefix { actual: raw[0] })
    } else if raw[2] != len - 4 {
        Err(DecodeError::WrongLength { declared: raw[2] as usize, actual: (len - 4) as usize })
    } else if raw.last() != checksum_byte(raw.drop_last()) {
        Err(
            DecodeError::BadChecksum {
                expected: checksum_byte(raw.drop_last()),
                actual: raw.last(),
            },
        )
    } else {
        command(raw[1], raw.subrange(3, len - 1))
    }
}

/// Validates and decodes one raw command packet.
pub fn decode(raw: &[u8]) -> (r: Result<Decoded, DecodeError>)
    ensures
        r == decoding(raw@),
{
    if raw.len() < 4 {
        return Err(DecodeError::Truncated { actual: raw.len() });
    }
    if raw[0] != 0x78 {
        return Err(DecodeError::WrongPrefix { actual: raw[0] });
    }
    let declared: usize = raw[2] as usize;
    let actual: usize = raw.len() - 4;
    if declared != actual {
        return Err(DecodeError::WrongLength { declared, actual });
    }
    let end: usize = raw.len() - 1;
    let body: &[u8] = &raw[0..end];
    assert(body@ =~= raw@.drop_last());
    let expected: u8 = checksum(body);
    let actual_checksum: u8 = raw[end];
    if expected != actual_checksum {
        return Err(DecodeError::BadChecksum { expected, actual: actual_checksum });
    }
    let opcode: u8 = raw[1];
    let payload: &[u8] = &raw[3..end];
    let length: usize = payload.len();
    if opcode == 0x81 && length == 1 {
        if payload[0] == 1 {
            Ok(Decoded::Power(true))
        } else if payload[0] == 2 {
            Ok(Decoded::Power(false))
        } else {
            Err(DecodeError::InvalidPower(payload[0]))
        }
    } else if opcode == 0x82 && length == 1 {
        Ok(Decoded::BriOnly(payload[0]))
    } else if opcode == 0x83 && length == 1 {
        Ok(Decoded::TempOnly(payload[0]))
    } else if opcode == 0x87 && length == 2 {
        Ok(Decoded::Cct { temp_hk: payload[1], bri: payload[0] })
    } else if opcode == 0x86 && length == 4 {
        Ok(
            Decoded::Hsi {
                hue: payload[0] as u16 + 256 * payload[1] as u16,
                sat: payload[2],
                bri: payload[3],
            },
        )
    } else if opcode == 0x88 && length == 2 {
        Ok(Decoded::Scene { scene: payload[1], bri: payload[0] })
    } else {
        Err(DecodeError::Unsupported { opcode, length })
    }
}

/// The hundreds of kelvin that stand in for a hue on a light without color.
pub open spec fn band_temperature(hue: int, min: int, max: int) -> int {
    let mid = (min + max) / 2;
    if hue < 61 || hue >= 300 {
        min
    } else if hue <= 150 {
        min + (hue - 60) * (max - min) / 2 / 90
    } else if hue <= 250 {
        mid + (hue - 150) * (max - mid) / 100
    } else {
        mid
    }
}

/// The mode that approximates a color on a light without color.
pub open(crate) spec fn approximation(hue: Hue, bri: Percent, caps: Capabilities) -> Mode {
    let hundreds = band_temperature(hue@, caps.cct_min@ / 100, caps.cct_max@ / 100);
    Mode::Cct { temp: Kelvin::of(hundreds * 100), bri }
}

proof fn band_in_range(hue: int, min: int, max: int)
    requires
        0 <= hue <= 359,
        25 <= min <= max <= 100,
    ensures
        min <= band_temperature(hue, min, max) <= max,
        (hue - 60) * (max - min) <= 300 * 75,
        -60 * 75 <= (hue - 60) * (max - min),
        (hue - 150) * (max - (min + max) / 2) <= 300 * 75,
        -150 * 75 <= (hue - 150) * (max - (min + max) / 2),
{
    let span = max - min;
    let half = max - (min + max) / 2;
    assert(-60 * 75 <= (hue - 60) * span <= 300 * 75) by (nonlinear_arith)
        requires
            0 <= hue <= 359,
            0 <= span <= 75,
    ;
    assert(-150 * 75 <= (hue - 150) * half <= 300 * 75) by (nonlinear_arith)
        requires
            0 <= hue <= 359,
            0 <= half <= 75,
    ;
    if 61 <= hue <= 150 {
        assert(0 <= (hue - 60) * span <= 90 * span) by (nonlinear_arith)
            requires
                61 <= hue <= 150,
                0 <= span,
        ;
    } else if 151 <= hue <= 250 {
        assert(0 <= (hue - 150) * half <= 100 * half) by (nonlinear_arith)
            requires
                151 <= hue <= 250,
                0 <= half,
        ;
    }
}

/// Limits in order are in order in hundreds of kelvin too.
pub proof fn band_limits(caps: Capabilities)
    requires
        caps.ordered(),
    ensures
        caps.cct_min@ / 100 <= caps.cct_max@ / 100,
{
}

/// Approximates an HSI color as a CCT mode for lights that cannot do color.
///
/// Hue bands map into the light's temperature range: warm hues (reds, oranges,
/// magentas) sit at the warm end, greens ramp toward the middle, cyans and blues
/// ramp to the cool end. Saturation is ignored. The math runs in
/// hundreds-of-kelvin units.
pub fn hsi_to_cct(hue: Hue, bri: Percent, caps: &Capabilities) -> (r: Mode)
    requires
        caps.cct_min@ / 100 <= caps.cct_max@ / 100,
    ensures
        r == approximation(hue, bri, *caps),
{
    let min: i32 = (caps.cct_min.get() / 100) as i32;
    let max: i32 = (caps.cct_max.get() / 100) as i32;
    let mid: i32 = (min + max) / 2;
    let hue: i32 = hue.get() as i32;
    proof {
        band_in_range(hue as int, min as int, max as int);
    }
    let temp: i32 = if hue < 61 || hue >= 300 {
        min
    } else if hue <= 150 {
        min + (hue - 60) * (max - min) / 2 / 90
    } else if hue <= 250 {
        mid + (hue - 150) * (max - mid) / 100
    } else {
        mid
    };
    let temp: u16 = temp as u16 * 100;
    Mode::Cct { temp: Kelvin(temp), bri }
}

/// A number held within two limits.
pub open spec fn clamped(value: int, min: int, max: int) -> int {
    if value < min {
        min
    } else if value > max {
        max
    } else {
        value
    }
}

/// The temperature that a device sets for a requested one: within its limits,
/// and a round hundred where the limits allow it.
pub open spec fn device_temperature(temp: int, min: int, max: int) -> int {
    clamped((clamped(temp, min, max) + 50) / 100 * 100, min, max)
}

/// The mode that a device sets for a requested one.
pub open(crate) spec fn device_mode(mode: Mode, caps: Capabilities) -> Mode {
    match mode {
        Mode::Cct { temp, bri } => Mode::Cct {
            temp: Kelvin::of(device_temperature(temp@, caps.cct_min@, caps.cct_max@)),
            bri,
        },
        _ => mode,
    }
}

fn clamp(value: u16, min: u16, max: u16) -> (r: u16)
    ensures
        r == clamped(value as int, min as int, max as int),
{
    if value < min {
        min
    } else if value > max {
        max
    } else {
        value
    }
}

/// Clamps CCT modes to device limits and rounds temperature to the nearest 100 K.
pub fn clamp_to_device(mode: Mode, caps: &Capabilities) -> (r: (Mode, bool))
    requires
        mode is Cct ==> caps.ordered(),
    ensures
        r.0 == device_mode(mode, *caps),
        r.1 == (r.0 != mode),
{
    match mode {
        Mode::Cct { temp, bri } => {
            let min: u16 = caps.cct_min.get();
            let max: u16 = caps.cct_max.get();
            let clamped: u16 = clamp(temp.get(), min, max);
            let rounded: u16 = ((clamped as u32 + 50) / 100 * 100) as u16;
            let adjusted: u16 = clamp(rounded, min, max);
            let result = Mode::Cct { temp: Kelvin(adjusted), bri };
            (result, result != mode)
        },
        _ => (mode, false),
    }
}

/// What the packets of a mode decode to.
pub open spec fn wire_values(mode: Mode, split: bool) -> Seq<Decoded> {
    match mode {
        Mode::On => seq![Decoded::Power(true)],
        Mode::Off => seq![Decoded::Power(false)],
        Mode::Cct { temp, bri } => if split {
            seq![Decoded::BriOnly(bri@ as u8), Decoded::TempOnly((temp@ / 100) as u8)]
        } else {
            seq![Decoded::Cct { temp_hk: (temp@ / 100) as u8, bri: bri@ as u8 }]
        },
        Mode::Hsi { hue, sat, bri } => seq![
            Decoded::Hsi { hue: hue@ as u16, sat: sat@ as u8, bri: bri@ as u8 },
        ],
        Mode::Scene { scene, bri } => seq![Decoded::Scene { scene: scene@ as u8, bri: bri@ as u8 }],
    }
}

proof fn packet_decodes(opcode: u8, payload: Seq<u8>)
    requires
        payload.len() < 256,
    ensures
        decoding(packet_bytes(opcode, payload)) == command(opcode, payload),
        packet_bytes(opcode, payload).last() == checksum_byte(
            packet_bytes(opcode, payload).drop_last(),
        ),
{
    let raw = packet_bytes(opcode, payload);
    let body = packet_body(opcode, payload);
    assert(raw.drop_last() =~= body);
    assert(raw.subrange(3, raw.len() - 1) =~= payload);
}

/// Every packet of an encoded mode is accepted, and the values on the wire are
/// those of the mode.
pub proof fn encoded_packets_decode(mode: Mode, split: bool)
    requires
        mode.wf(),
    ensures
        encoding(mode, split).len() == wire_values(mode, split).len(),
        forall|i: int|
            0 <= i < encoding(mode, split).len() ==> #[trigger] decoding(encoding(mode, split)[i])
                == Ok::<Decoded, DecodeError>(wire_values(mode, split)[i]),
{
    match mode {
        Mode::On => {
            packet_decodes(0x81, seq![1]);
        },
        Mode::Off => {
            packet_decodes(0x81, seq![2]);
        },
        Mode::Cct { temp, bri } => {
            packet_decodes(0x82, seq![bri@ as u8]);
            packet_decodes(0x83, seq![(temp@ / 100) as u8]);
            packet_decodes(0x87, seq![bri@ as u8, (temp@ / 100) as u8]);
        },
        Mode::Hsi { hue, sat, bri } => {
            packet_decodes(0x86, little_endian(hue@) + seq![sat@ as u8, bri@ as u8]);
        },
        Mode::Scene { scene, bri } => {
            packet_decodes(0x88, seq![bri@ as u8, scene@ as u8]);
        },
    }
}

/// Every packet of an encoded mode ends in the checksum of the bytes before it.
pub proof fn encoded_packets_carry_their_checksum(mode: Mode, split: bool, i: int)
    requires
        mode.wf(),
        0 <= i < encoding(mode, split).len(),
    ensures
        encoding(mode, split)[i].len() >= 4,
        encoding(mode, split)[i].last() == checksum_byte(encoding(mode, split)[i].drop_last()),
{
    encoded_packets_decode(mode, split);
    let raw = encoding(mode, split)[i];
    assert(decoding(raw) is Ok);
}

/// A packet is accepted exactly if its envelope is sound and its command known.
pub proof fn decoding_accepts_framed_commands(raw: Seq<u8>)
    ensures
        decoding(raw) is Ok <==> raw.len() >= 4 && raw == packet_bytes(
            raw[1],
            raw.subrange(3, raw.len() - 1),
        ) && raw.len() < 260 && command(raw[1], raw.subrange(3, raw.len() - 1)) is Ok,
{
    if raw.len() >= 4 {
        let payload = raw.subrange(3, raw.len() - 1);
        let body = packet_body(raw[1], payload);
        if decoding(raw) is Ok {
            assert(raw.drop_last() =~= body);
            assert(raw =~= packet_bytes(raw[1], payload));
        }
        if raw == packet_bytes(raw[1], payload) && raw.len() < 260 {
            packet_decodes(raw[1], payload);
        }
    }
}

/// A mode that a device sets is one that it sets for itself: adapting it again
/// changes nothing, and its temperature is within the limits.
pub proof fn device_modes_are_settled(mode: Mode, caps: Capabilities)
    requires
        mode.wf(),
        caps.wf(),
    ensures
        device_mode(mode, caps).wf(),
        device_mode(device_mode(mode, caps), caps) == device_mode(mode, caps),
        device_mode(mode, caps) matches Mode::Cct { temp, .. } ==> caps.cct_min@ <= temp@
            <= caps.cct_max@,
{
}

/// A color approximated on a light without color is a temperature between the
/// light's limits, taken in whole hundreds.
pub proof fn approximations_are_within_limits(hue: Hue, bri: Percent, caps: Capabilities)
    requires
        hue.wf(),
        bri.wf(),
        caps.wf(),
    ensures
        approximation(hue, bri, caps).wf(),
        approximation(hue, bri, caps) matches Mode::Cct { temp, .. } && temp@ % 100 == 0
            && caps.cct_min@ / 100 * 100 <= temp@ <= caps.cct_max@,
{
    band_in_range(hue@, caps.cct_min@ / 100, caps.cct_max@ / 100);
}

/// A color on a light without color keeps its brightness, and its hue decides between
/// the light's limits, in hundreds of kelvin. Reds, oranges and magentas are the warm
/// limit. From there greens rise in even steps to the middle, which hue 150 is, and
/// cyans and blues from the middle to the cool limit, which hue 250 is. What follows is
/// the middle. A step that is no whole hundred is left out, so that the distance to the
/// even rise is less than a hundred kelvin.
pub proof fn hues_ramp_from_warm_to_cool(hue: Hue, bri: Percent, caps: Capabilities)
    requires
        hue.wf(),
        bri.wf(),
        caps.wf(),
    ensures
        approximation(hue, bri, caps) matches Mode::Cct { temp, bri: kept } && kept == bri && ({
            let h = hue@;
            let t = temp@ / 100;
            let warm = caps.cct_min@ / 100;
            let cool = caps.cct_max@ / 100;
            let middle = warm + (cool - warm) / 2;
            &&& temp@ == 100 * t
            &&& h <= 60 || h >= 300 ==> t == warm
            &&& 60 < h <= 150 ==> 0 <= (h - 60) * (cool - warm) - 180 * (t - warm) < 180
            &&& h == 150 ==> t == middle
            &&& 150 < h <= 250 ==> 0 <= (h - 150) * (cool - middle) - 100 * (t - middle) < 100
            &&& h == 250 ==> t == cool
            &&& 250 < h < 300 ==> t == middle
        }),
{
    let h = hue@;
    let warm = caps.cct_min@ / 100;
    let cool = caps.cct_max@ / 100;
    band_in_range(h, warm, cool);
    let middle = warm + (cool - warm) / 2;
    assert(middle == (warm + cool) / 2);
    if 60 < h <= 150 {
        let x = (h - 60) * (cool - warm);
        assert(x / 2 / 90 == x / 180);
        if h == 150 {
            assert(x == 90 * (cool - warm));
        }
    }
    if h == 250 {
        let x = (h - 150) * (cool - middle);
        assert(x == 100 * (cool - middle));
    }
}

/// Within the rising hues a later one is never warmer, and all of them lie between the
/// light's limits; from hue 150 on none is below the middle.
pub proof fn later_hues_are_never_warmer(a: Hue, b: Hue, bri: Percent, caps: Capabilities)
    requires
        a.wf(),
        b.wf(),
        bri.wf(),
        caps.wf(),
        a@ <= b@ <= 250,
    ensures
        ({
            let x = approximation(a, bri, caps)->temp@;
            let y = approximation(b, bri, caps)->temp@;
            let warm = caps.cct_min@ / 100;
            let cool = caps.cct_max@ / 100;
            &&& 100 * warm <= x <= y <= 100 * cool
            &&& b@ >= 150 ==> y >= 100 * (warm + (cool - warm) / 2)
        }),
{
    hues_ramp_from_warm_to_cool(a, bri, caps);
    hues_ramp_from_warm_to_cool(b, bri, caps);
    let warm = caps.cct_min@ / 100;
    let cool = caps.cct_max@ / 100;
    band_in_range(a@, warm, cool);
    band_in_range(b@, warm, cool);
    let middle = warm + (cool - warm) / 2;
    let x = approximation(a, bri, caps)->temp@ / 100;
    let y = approximation(b, bri, caps)->temp@ / 100;
    assert((a@ - 60) * (cool - warm) <= (b@ - 60) * (cool - warm)) by (nonlinear_arith)
        requires
            a@ <= b@,
            warm <= cool,
    ;
    assert((a@ - 150) * (cool - middle) <= (b@ - 150) * (cool - middle)) by (nonlinear_arith)
        requires
            a@ <= b@,
            middle <= cool,
    ;
    if 150 < b@ {
        assert(0 <= (b@ - 150) * (cool - middle)) by (nonlinear_arith)
            requires
                b@ > 150,
                middle <= cool,
        ;
    }
    if 60 < a@ <= 150 {
        assert((a@ - 60) * (cool - warm) <= 90 * (cool - warm)) by (nonlinear_arith)
            requires
                a@ <= 150,
                warm <= cool,
        ;
    }
}

/// A light sets the hundred that is nearest to the requested temperature, the higher of
/// two equally near ones, but never leaves its limits. Requests beyond a limit are
/// requests for the limit. Nothing but the temperature is changed.
pub proof fn devices_set_the_nearest_hundred(mode: Mode, caps: Capabilities, hundred: int)
    requires
        mode.wf(),
        caps.wf(),
        hundred % 100 == 0,
    ensures
        match mode {
            Mode::Cct { temp, bri } => device_mode(mode, caps) matches Mode::Cct {
                temp: set,
                bri: kept,
            } && kept == bri && ({
                let min = caps.cct_min@;
                let max = caps.cct_max@;
                let wanted = if temp@ <= min {
                    min
                } else if temp@ >= max {
                    max
                } else {
                    temp@
                };
                hundred - 50 <= wanted < hundred + 50 ==> {
                    &&& min <= hundred <= max ==> set@ == hundred
                    &&& hundred < min ==> set@ == min
                    &&& hundred > max ==> set@ == max
                }
            }),
            _ => device_mode(mode, caps) == mode,
        },
{
}

/// What a light is sent, byte by byte: the prefix, the operation, the number of bytes
/// that follow but for the last, those bytes, and the sum of all of them in one byte.
/// Power is one for on and two for off. A temperature goes in hundreds of kelvin behind
/// the brightness, in one packet or in two. A hue goes with its low byte first.
pub proof fn packets_on_the_wire(mode: Mode, split: bool)
    requires
        mode.wf(),
    ensures
        match mode {
            Mode::On => encoding(mode, split) == seq![seq![0x78u8, 0x81, 1, 1, 0xfb]],
            Mode::Off => encoding(mode, split) == seq![seq![0x78u8, 0x81, 1, 2, 0xfc]],
            Mode::Cct { temp, bri } => {
                let b = bri@ as u8;
                let t = (temp@ / 100) as u8;
                encoding(mode, split) == if split {
                    seq![
                        seq![0x78u8, 0x82, 1, b, ((0xfb + b) % 256) as u8],
                        seq![0x78u8, 0x83, 1, t, ((0xfc + t) % 256) as u8],
                    ]
                } else {
                    seq![seq![0x78u8, 0x87, 2, b, t, ((0x101 + b + t) % 256) as u8]]
                }
            },
            Mode::Hsi { hue, sat, bri } => {
                let low = (hue@ % 256) as u8;
                let high = (hue@ / 256) as u8;
                let s = sat@ as u8;
                let b = bri@ as u8;
                encoding(mode, split) == seq![
                    seq![
                        0x78u8,
                        0x86,
                        4,
                        low,
                        high,
                        s,
                        b,
                        ((0x102 + low + high + s + b) % 256) as u8,
                    ],
                ]
            },
            Mode::Scene { scene, bri } => {
                let b = bri@ as u8;
                let n = scene@ as u8;
                encoding(mode, split) == seq![
                    seq![0x78u8, 0x88, 2, b, n, ((0x102 + b + n) % 256) as u8],
                ]
            },
        },
{
    match mode {
        Mode::On => {
            short_packet(0x81, 1);
        },
        Mode::Off => {
            short_packet(0x81, 2);
        },
        Mode::Cct { temp, bri } => {
            short_packet(0x82, bri@ as u8);
            short_packet(0x83, (temp@ / 100) as u8);
            pair_packet(0x87, bri@ as u8, (temp@ / 100) as u8);
        },
        Mode::Hsi { hue, sat, bri } => {
            let low = (hue@ % 256) as u8;
            let high = (hue@ / 256) as u8;
            color_packet(low, high, sat@ as u8, bri@ as u8);
            assert(little_endian(hue@) + seq![sat@ as u8, bri@ as u8] =~= seq![
                low,
                high,
                sat@ as u8,
                bri@ as u8,
            ]);
        },
        Mode::Scene { scene, bri } => {
            pair_packet(0x88, bri@ as u8, scene@ as u8);
        },
    }
}

proof fn sum_of_pushed(bytes: Seq<u8>, byte: u8)
    ensures
        byte_sum(bytes.push(byte)) == byte_sum(bytes) + byte,
{
    assert(bytes.push(byte).drop_last() =~= bytes);
}

proof fn sum_of_header(opcode: u8, length: u8)
    ensures
        byte_sum(seq![0x78u8, opcode, length]) == 0x78 + opcode + length,
{
    let none = Seq::<u8>::empty();
    sum_of_pushed(none, 0x78);
    sum_of_pushed(none.push(0x78), opcode);
    sum_of_pushed(none.push(0x78).push(opcode), length);
    assert(none.push(0x78).push(opcode).push(length) =~= seq![0x78u8, opcode, length]);
}

proof fn short_packet(opcode: u8, a: u8)
    ensures
        packet_bytes(opcode, seq![a]) == seq![
            0x78u8,
            opcode,
            1,
            a,
            ((0x79 + opcode + a) % 256) as u8,
        ],
{
    sum_of_header(opcode, 1);
    sum_of_pushed(seq![0x78u8, opcode, 1], a);
    assert(packet_body(opcode, seq![a]) =~= seq![0x78u8, opcode, 1].push(a));
    assert(packet_bytes(opcode, seq![a]) =~= seq![
        0x78u8,
        opcode,
        1,
        a,
        ((0x79 + opcode + a) % 256) as u8,
    ]);
}

proof fn pair_packet(opcode: u8, a: u8, b: u8)
    ensures
        packet_bytes(opcode, seq![a, b]) == seq![
            0x78u8,
            opcode,
            2,
            a,
            b,
            ((0x7a + opcode + a + b) % 256) as u8,
        ],
{
    sum_of_header(opcode, 2);
    sum_of_pushed(seq![0x78u8, opcode, 2], a);
    sum_of_pushed(seq![0x78u8, opcode, 2].push(a), b);
    assert(packet_body(opcode, seq![a, b]) =~= seq![0x78u8, opcode, 2].push(a).push(b));
    assert(packet_bytes(opcode, seq![a, b]) =~= seq![
        0x78u8,
        opcode,
        2,
        a,
        b,
        ((0x7a + opcode + a + b) % 256) as u8,
    ]);
}

proof fn color_packet(a: u8, b: u8, c: u8, d: u8)
    ensures
        packet_bytes(0x86, seq![a, b, c, d]) == seq![
            0x78u8,
            0x86,
            4,
            a,
            b,
            c,
            d,
            ((0x102 + a + b + c + d) % 256) as u8,
        ],
{
    let head = seq![0x78u8, 0x86, 4];
    sum_of_header(0x86, 4);
    sum_of_pushed(head, a);
    sum_of_pushed(head.push(a), b);
    sum_of_pushed(head.push(a).push(b), c);
    sum_of_pushed(head.push(a).push(b).push(c), d);
    assert(packet_body(0x86, seq![a, b, c, d]) =~= head.push(a).push(b).push(c).push(d));
    assert(packet_bytes(0x86, seq![a, b, c, d]) =~= seq![
        0x78u8,
        0x86,
        4,
        a,
        b,
        c,
        d,
        ((0x102 + a + b + c + d) % 256) as u8,
    ]);
}

/// Some bytes are a sound packet: prefix, length and sum are as they have to be.
pub open spec fn is_sound(raw: Seq<u8>) -> bool {
    &&& raw.len() >= 4
    &&& raw[0] == 0x78
    &&& raw[2] == raw.len() - 4
    &&& (raw.drop_last().fold_left(0int, |sum: int, byte: u8| sum + byte) - raw.last()) % 256 == 0
}

proof fn sums_are_folds(bytes: Seq<u8>)
    ensures
        byte_sum(bytes) == bytes.fold_left(0int, |sum: int, byte: u8| sum + byte),
        byte_sum(bytes) >= 0,
    decreases bytes.len(),
{
    reveal_with_fuel(Seq::fold_left, 2);
    if bytes.len() > 0 {
        sums_are_folds(bytes.drop_last());
    }
}

/// What a light is told by some bytes. Bytes that are no sound packet tell it nothing,
/// and of several faults the one further ahead is named: too few bytes, the prefix, the
/// length, the sum, the operation. Each operation is known by its number and takes its
/// own number of bytes.
pub proof fn bytes_tell_a_light(raw: Seq<u8>)
    ensures
        raw.len() < 4 ==> decoding(raw) == Err::<Decoded, DecodeError>(
            DecodeError::Truncated { actual: raw.len() as usize },
        ),
        raw.len() >= 4 && raw[0] != 0x78 ==> decoding(raw) == Err::<Decoded, DecodeError>(
            DecodeError::WrongPrefix { actual: raw[0] },
        ),
        raw.len() >= 4 && raw[0] == 0x78 && raw[2] != raw.len() - 4 ==> decoding(raw) == Err::<
            Decoded,
            DecodeError,
        >(DecodeError::WrongLength { declared: raw[2] as usize, actual: (raw.len() - 4) as usize }),
        raw.len() >= 4 && raw[0] == 0x78 && raw[2] == raw.len() - 4 && !is_sound(raw)
            ==> (decoding(raw) matches Err(DecodeError::BadChecksum { expected, actual }) && actual
            == raw.last() && expected != actual && is_sound(raw.drop_last().push(expected))),
        is_sound(raw) && raw[2] == 1 ==> decoding(raw) == if raw[1] == 0x81 && raw[3] == 1 {
            Ok::<Decoded, DecodeError>(Decoded::Power(true))
        } else if raw[1] == 0x81 && raw[3] == 2 {
            Ok(Decoded::Power(false))
        } else if raw[1] == 0x81 {
            Err(DecodeError::InvalidPower(raw[3]))
        } else if raw[1] == 0x82 {
            Ok(Decoded::BriOnly(raw[3]))
        } else if raw[1] == 0x83 {
            Ok(Decoded::TempOnly(raw[3]))
        } else {
            Err(DecodeError::Unsupported { opcode: raw[1], length: 1 })
        },
        is_sound(raw) && raw[2] == 2 ==> decoding(raw) == if raw[1] == 0x87 {
            Ok::<Decoded, DecodeError>(Decoded::Cct { bri: raw[3], temp_hk: raw[4] })
        } else if raw[1] == 0x88 {
            Ok(Decoded::Scene { bri: raw[3], scene: raw[4] })
        } else {
            Err(DecodeError::Unsupported { opcode: raw[1], length: 2 })
        },
        is_sound(raw) && raw[2] == 4 && raw[1] == 0x86 ==> (decoding(raw) matches Ok(
            Decoded::Hsi { hue, sat, bri },
        ) && hue == raw[3] + 256 * raw[4] && sat == raw[5] && bri == raw[6]),
        is_sound(raw) && raw[2] != 1 && raw[2] != 2 && !(raw[2] == 4 && raw[1] == 0x86)
            ==> decoding(raw) == Err::<Decoded, DecodeError>(
            DecodeError::Unsupported { opcode: raw[1], length: raw[2] as usize },
        ),
{
    if raw.len() >= 4 {
        sums_are_folds(raw.drop_last());
        let payload = raw.subrange(3, raw.len() - 1);
        assert(payload.len() == raw.len() - 4);
        let fixed = raw.drop_last().push(checksum_byte(raw.drop_last()));
        assert(fixed.drop_last() =~= raw.drop_last());
    }
}

/// A packet holds its prefix, its opcode, the length of its payload, the payload, and the
/// sum of all these bytes, each number as its lowest byte.
pub proof fn packets_frame_their_payload(opcode: u8, payload: Seq<u8>)
    ensures
        ({
            let packet = packet_bytes(opcode, payload);
            &&& packet.len() == payload.len() + 4
            &&& packet[0] == 0x78
            &&& packet[1] == opcode
            &&& (payload.len() - packet[2]) % 256 == 0
            &&& packet.subrange(3, packet.len() - 1) == payload
            &&& (packet.drop_last().fold_left(0int, |sum: int, byte: u8| sum + byte)
                - packet.last()) % 256 == 0
        }),
{
    let packet = packet_bytes(opcode, payload);
    let body = packet_body(opcode, payload);
    assert(packet.drop_last() =~= body);
    assert(packet.subrange(3, packet.len() - 1) =~= payload);
    sums_are_folds(body);
    assert(byte_sum(body) == body.fold_left(0int, |sum: int, byte: u8| sum + byte));
}

} // verus!
