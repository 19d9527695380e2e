//! Beacon frames.
//!
//! A beacon's payload is its superframe specification, its guaranteed time
//! slot (GTS) information and the addresses with pending data, in that order.

use vstd::prelude::*;

verus! {

use super::address::{
    extended_address_roundtrip, lemma_written_twice, short_address_roundtrip, written, DecodeError,
    ExtendedAddress, ShortAddress,
};

/// Beacon order is used to calculate the beacon interval
#[derive(Clone, Copy, Debug, Eq, Hash, PartialEq, Structural)]
pub enum BeaconOrder {
    /// Used to calculate at which interval beacons are sent
    ///
    /// Beacon interval  = BaseSuperframeDuration × (2 ^ BeaconOrder)
    BeaconOrder(u8),
    /// Beacon are only sent on demand
    OnDemand,
}

impl BeaconOrder {
    /// The order that the value `value` of the four-bit field stands for:
    /// 0 to 14 are orders, anything else means on demand.
    pub open spec fn from_value(value: u8) -> BeaconOrder {
        if value <= 14 {
            BeaconOrder::BeaconOrder(value)
        } else {
            BeaconOrder::OnDemand
        }
    }

    /// The field value of the order: its number, or 15 for on demand.
    pub open spec fn value(self) -> u8 {
        match self {
            BeaconOrder::BeaconOrder(v) => v,
            BeaconOrder::OnDemand => 15,
        }
    }

    /// Whether the order fits the four-bit field as itself (0 to 14).
    pub open spec fn is_valid(self) -> bool {
        match self {
            BeaconOrder::BeaconOrder(v) => v <= 14,
            BeaconOrder::OnDemand => true,
        }
    }
}

impl From<u8> for BeaconOrder {
    /// Convert u8 to beacon order
    fn from(value: u8) -> (r: Self) {
        match value {
            0..=14 => BeaconOrder::BeaconOrder(value),
            _ => BeaconOrder::OnDemand,
        }
    }
}

impl vstd::std_specs::convert::FromSpecImpl<u8> for BeaconOrder {
    open spec fn obeys_from_spec() -> bool {
        true
    }

    open spec fn from_spec(value: u8) -> Self {
        BeaconOrder::from_value(value)
    }
}

impl From<BeaconOrder> for u8 {
    /// Convert beacon order to u8
    fn from(value: BeaconOrder) -> (r: Self) {
        match value {
            BeaconOrder::BeaconOrder(v) => v,
            BeaconOrder::OnDemand => 15,
        }
    }
}

impl vstd::std_specs::convert::FromSpecImpl<BeaconOrder> for u8 {
    open spec fn obeys_from_spec() -> bool {
        true
    }

    open spec fn from_spec(value: BeaconOrder) -> Self {
        value.value()
    }
}

/// Superframe order, amount of time during wich this superframe is active
#[derive(Clone, Copy, Debug, Eq, Hash, PartialEq, Structural)]
pub enum SuperframeOrder {
    /// Ammount of time that the superframe is active
    ///
    /// superframe duration = base superframe duration × (2 ^ superframe order)
    SuperframeOrder(u8),
    /// No superframes are sent
    Inactive,
}

impl SuperframeOrder {
    /// The order that the value `value` of the four-bit field stands for:
    /// 0 to 14 are orders, anything else means inactive.
    pub open spec fn from_value(value: u8) -> SuperframeOrder {
        if value <= 14 {
            SuperframeOrder::SuperframeOrder(value)
        } else {
            SuperframeOrder::Inactive
        }
    }

    /// The field value of the order: its number, or 15 for inactive.
    pub open spec fn value(self) -> u8 {
        match self {
            SuperframeOrder::SuperframeOrder(v) => v,
            SuperframeOrder::Inactive => 15,
        }
    }

    /// Whether the order fits the four-bit field as itself (0 to 14).
    pub open spec fn is_valid(self) -> bool {
        match self {
            SuperframeOrder::SuperframeOrder(v) => v <= 14,
            SuperframeOrder::Inactive => true,
        }
    }
}

impl From<u8> for SuperframeOrder {
    /// Convert u8 to superframe order
    fn from(value: u8) -> (r: Self) {
        match value {
            0..=14 => SuperframeOrder::SuperframeOrder(value),
            _ => SuperframeOrder::Inactive,
        }
    }
}

impl vstd::std_specs::convert::FromSpecImpl<u8> for SuperframeOrder {
    open spec fn obeys_from_spec() -> bool {
        true
    }

    open spec fn from_spec(value: u8) -> Self {
        SuperframeOrder::from_value(value)
    }
}

impl From<SuperframeOrder> for u8 {
    /// Convert superframe order to u8
    fn from(value: SuperframeOrder) -> (r: Self) {
        match value {
            SuperframeOrder::SuperframeOrder(v) => v,
            SuperframeOrder::Inactive => 15,
        }
    }
}

impl vstd::std_specs::convert::FromSpecImpl<SuperframeOrder> for u8 {
    open spec fn obeys_from_spec() -> bool {
        true
    }

    open spec fn from_spec(value: SuperframeOrder) -> Self {
        value.value()
    }
}

/// A field value read as an order and turned back into a field value is
/// itself up to 15, and 15 above; an order that fits the field survives the
/// way to the field and back.
pub proof fn order_conversions(value: u8, b: BeaconOrder, s: SuperframeOrder)
    ensures
        BeaconOrder::from_value(value).value() == (if value <= 15 { value } else { 15 }),
        SuperframeOrder::from_value(value).value() == (if value <= 15 { value } else { 15 }),
        BeaconOrder::from_value(value).is_valid(),
        SuperframeOrder::from_value(value).is_valid(),
        b.is_valid() ==> BeaconOrder::from_value(b.value()) == b,
        s.is_valid() ==> SuperframeOrder::from_value(s.value()) == s,
{
}

/// Superframe specification
///
/// The superframe specification describes the organisation of frames in the
/// air when using superframes and/or periodical beacons.
#[derive(Clone, Copy, Debug, Eq, Hash, PartialEq, Structural)]
pub struct SuperframeSpecification {
    /// Beacon order, 0-15, where 15 is on demand.
    ///
    /// Beacon interval  = BaseSuperframeDuration × (2 ^ BeaconOrder)
    pub beacon_order: BeaconOrder,
    /// Superframe order, amount of time during wich this superframe is active
    pub superframe_order: SuperframeOrder,
    /// final contention access period slot used
    pub final_cap_slot: u8,
    /// Limit receiving of beacons for a period. Not used if beacon_order is OnDemand.
    pub battery_life_extension: bool,
    /// Frame sent by a coordinator
    pub pan_coordinator: bool,
    /// The coordinator acceppts associations to the PAN
    pub association_permit: bool,
}

pub const BATTERY_LIFE_EXTENSION: u8 = 0b0001_0000;

pub const PAN_COORDINATOR: u8 = 0b0100_0000;

pub const ASSOCIATION_PERMIT: u8 = 0b1000_0000;

/// Bytes taken by a superframe specification.
const SUPERFRAME_SIZE: usize = 2;

/// The byte with bit `mask` set when `flag` holds, and no bit otherwise.
pub open spec fn flag_bits(flag: bool, mask: u8) -> u8 {
    if flag {
        mask
    } else {
        0
    }
}

impl SuperframeSpecification {
    /// The specification held by the bytes `b0` and `b1`: beacon order in the
    /// low nibble of `b0`, superframe order in its high nibble; final CAP slot
    /// in the low nibble of `b1`, then battery life extension (bit 4), PAN
    /// coordinator (bit 6) and association permit (bit 7).
    pub open spec fn from_bytes(b0: u8, b1: u8) -> SuperframeSpecification {
        SuperframeSpecification {
            beacon_order: BeaconOrder::from_value(b0 & 0x0f),
            superframe_order: SuperframeOrder::from_value((b0 >> 4) & 0x0f),
            final_cap_slot: b1 & 0x0f,
            battery_life_extension: (b1 & BATTERY_LIFE_EXTENSION) == BATTERY_LIFE_EXTENSION,
            pan_coordinator: (b1 & PAN_COORDINATOR) == PAN_COORDINATOR,
            association_permit: (b1 & ASSOCIATION_PERMIT) == ASSOCIATION_PERMIT,
        }
    }

    /// The first byte written: the beacon order's value in the low nibble and
    /// the superframe order's value shifted into the high nibble.
    pub open spec fn first_byte(self) -> u8 {
        (self.beacon_order.value() & 0x0f) | (self.superframe_order.value() << 4u8)
    }

    /// The second byte written: the final CAP slot's low nibble and the flags.
    pub open spec fn second_byte(self) -> u8 {
        self.final_cap_slot & 0x0f | flag_bits(self.battery_life_extension, BATTERY_LIFE_EXTENSION)
            | flag_bits(self.pan_coordinator, PAN_COORDINATOR) | flag_bits(
            self.association_permit,
            ASSOCIATION_PERMIT,
        )
    }

    /// The encoding of the specification.
    pub open spec fn bytes(self) -> Seq<u8> {
        seq![self.first_byte(), self.second_byte()]
    }

    /// Whether every field fits its place in the encoding.
    pub open spec fn is_valid(self) -> bool {
        &&& self.beacon_order.is_valid()
        &&& self.superframe_order.is_valid()
        &&& self.final_cap_slot <= 15
    }

    /// What decoding the bytes `s` gives.
    pub open spec fn decoded(s: Seq<u8>) -> Result<(SuperframeSpecification, usize), DecodeError> {
        if s.len() < 2 {
            Err(DecodeError::NotEnoughBytes)
        } else {
            Ok((SuperframeSpecification::from_bytes(s[0], s[1]), 2))
        }
    }

    /// Decode superframe specification from byte buffer
    ///
    /// # Returns
    ///
    /// Returns [`SuperframeSpecification`] and the number of bytes used are returned
    ///
    /// # Errors
    ///
    /// This function returns an error, if the bytes either don't are enough or
    /// dont't contain valid data. Please refer to [`DecodeError`] for details.
    pub fn decode(buf: &[u8]) -> (r: Result<(Self, usize), DecodeError>)
        ensures
            r == Self::decoded(buf@),
    {
        if buf.len() < SUPERFRAME_SIZE {
            return Err(DecodeError::NotEnoughBytes);
        }
        let byte = buf[0];
        let beacon_order = BeaconOrder::from(byte & 0x0f);
        let superframe_order = SuperframeOrder::from((byte >> 4) & 0x0f);
        let byte = buf[1];
        let final_cap_slot = byte & 0x0f;
        let battery_life_extension = (byte & BATTERY_LIFE_EXTENSION) == BATTERY_LIFE_EXTENSION;
        let pan_coordinator = (byte & PAN_COORDINATOR) == PAN_COORDINATOR;
        let association_permit = (byte & ASSOCIATION_PERMIT) == ASSOCIATION_PERMIT;
        Ok(
            (
                SuperframeSpecification {
                    beacon_order,
                    superframe_order,
                    final_cap_slot,
                    battery_life_extension,
                    pan_coordinator,
                    association_permit,
                },
                SUPERFRAME_SIZE,
            ),
        )
    }

    /// Writes the specification at position `pos` of `buf`.
    fn encode_at(&self, buf: &mut [u8], pos: usize)
        requires
            pos + 2 <= old(buf)@.len(),
        ensures
            final(buf)@ == written(old(buf)@, pos as int, self.bytes()),
    {
        let bo = u8::from(self.beacon_order.clone());
        let so = u8::from(self.superframe_order.clone());
        buf[pos] = (bo & 0x0f) | (so << 4u8);
        let ble = if self.battery_life_extension {
            BATTERY_LIFE_EXTENSION
        } else {
            0
        };
        let pc = if self.pan_coordinator {
            PAN_COORDINATOR
        } else {
            0
        };
        let ap = if self.association_permit {
            ASSOCIATION_PERMIT
        } else {
            0
        };
        buf[pos + 1] = self.final_cap_slot & 0x0f | ble | pc | ap;
        assert(final(buf)@ =~= written(old(buf)@, pos as int, self.bytes()));
    }

    /// Encode superframe specification into a byte buffer
    ///
    /// # Returns
    ///
    /// Returns the number of bytes written to the buffer
    ///
    /// # Panics
    ///
    /// Panics if the buffer is not long enough to hold the frame.
    pub fn encode(&self, buf: &mut [u8]) -> (n: usize)
        requires
            old(buf)@.len() >= 2,
        ensures
            n == 2,
            final(buf)@ == written(old(buf)@, 0, self.bytes()),
    {
        self.encode_at(buf, 0);
        SUPERFRAME_SIZE
    }
}

/// Decoding the encoding of a valid superframe specification gives it back.
pub proof fn superframe_encode_decode(v: SuperframeSpecification)
    requires
        v.is_valid(),
    ensures
        SuperframeSpecification::decoded(v.bytes()) == Ok::<(SuperframeSpecification, usize), DecodeError>((v, 2)),
{
    let bo = v.beacon_order.value();
    let so = v.superframe_order.value();
    let fcs = v.final_cap_slot;
    let b0 = v.first_byte();
    let b1 = v.second_byte();
    assert(bo <= 15 && so <= 15 ==> ((bo & 0x0f) | (so << 4u8)) & 0x0f == bo
        && ((((bo & 0x0f) | (so << 4u8)) >> 4u8) & 0x0f) == so) by (bit_vector);
    let ble = v.battery_life_extension;
    let pc = v.pan_coordinator;
    let ap = v.association_permit;
    assert(fcs <= 15 ==> {
        let b = fcs & 0x0f | (if ble { 0x10u8 } else { 0u8 }) | (if pc { 0x40u8 } else { 0u8 }) | (
        if ap { 0x80u8 } else { 0u8 });
        &&& b & 0x0f == fcs
        &&& (b & 0x10 == 0x10) == ble
        &&& (b & 0x40 == 0x40) == pc
        &&& (b & 0x80 == 0x80) == ap
    }) by (bit_vector);
    order_conversions(bo, v.beacon_order, v.superframe_order);
}

/// Encoding a decoded superframe specification gives back the bytes it was
/// decoded from, but for the reserved bit 5 of the second byte, which comes
/// back clear.
pub proof fn superframe_decode_encode(s: Seq<u8>)
    requires
        s.len() >= 2,
    ensures
        SuperframeSpecification::from_bytes(s[0], s[1]).is_valid(),
        SuperframeSpecification::from_bytes(s[0], s[1]).bytes() == seq![s[0], s[1] & 0xdf],
{
    let b0 = s[0];
    let b1 = s[1];
    let v = SuperframeSpecification::from_bytes(b0, b1);
    assert(b0 & 0x0f <= 15 && (b0 >> 4u8) & 0x0f <= 15 && b1 & 0x0f <= 15) by (bit_vector);
    order_conversions(b0 & 0x0f, v.beacon_order, v.superframe_order);
    order_conversions((b0 >> 4u8) & 0x0f, v.beacon_order, v.superframe_order);
    assert(((b0 & 0x0f) & 0x0f) | (((b0 >> 4u8) & 0x0f) << 4u8) == b0) by (bit_vector);
    assert(b1 & 0x0f & 0x0f | (if b1 & 0x10 == 0x10 { 0x10u8 } else { 0u8 }) | (
    if b1 & 0x40 == 0x40 { 0x40u8 } else { 0u8 }) | (if b1 & 0x80 == 0x80 { 0x80u8 } else { 0u8 })
        == b1 & 0xdf) by (bit_vector);
    assert(v.bytes() =~= seq![b0, b1 & 0xdf]);
}

/// Direction of data
#[derive(Clone, Copy, Debug, Eq, Hash, PartialEq, Structural)]
pub enum Direction {
    /// Receive data
    Receive,
    /// Transmit data
    Transmit,
}

/// Descriptor of the guaranteed time slots (GTSs)
#[derive(Clone, Copy, Debug, Eq, Hash, PartialEq, Structural)]
pub struct GuaranteedTimeSlotDescriptor {
    /// Device short address used by this slot
    pub short_address: ShortAddress,
    /// Slot start
    pub starting_slot: u8,
    /// Slot length
    pub length: u8,
    /// Direction of the slot, either transmit or receive
    pub direction: Direction,
}

/// Bytes taken by a guaranteed time slot descriptor.
const DESCRIPTOR_SIZE: usize = 3;

impl GuaranteedTimeSlotDescriptor {
    /// The empty slot: broadcast address, start and length zero, receiving.
    pub open spec fn empty() -> GuaranteedTimeSlotDescriptor {
        GuaranteedTimeSlotDescriptor {
            short_address: ShortAddress(0xffff),
            starting_slot: 0,
            length: 0,
            direction: Direction::Receive,
        }
    }

    /// The third byte written: the starting slot, with the length shifted
    /// into the high nibble.
    pub open spec fn slot_byte(self) -> u8 {
        self.starting_slot | (self.length << 4u8)
    }

    /// The encoding of the descriptor: the short address, then the slot byte.
    /// The direction is not part of it.
    pub open spec fn bytes(self) -> Seq<u8> {
        self.short_address.bytes().push(self.slot_byte())
    }

    /// The descriptor held by the first three bytes of `s`, as a receive slot:
    /// the short address, then the starting slot in the low nibble and the
    /// length in the high nibble of the third byte.
    pub open spec fn from_bytes(s: Seq<u8>) -> GuaranteedTimeSlotDescriptor {
        GuaranteedTimeSlotDescriptor {
            short_address: ShortAddress::from_bytes(s),
            starting_slot: s[2] & 0x0f,
            length: s[2] >> 4u8,
            direction: Direction::Receive,
        }
    }

    /// What decoding the bytes `s` gives.
    pub open spec fn decoded(s: Seq<u8>) -> Result<(GuaranteedTimeSlotDescriptor, usize), DecodeError> {
        if s.len() < 3 {
            Err(DecodeError::NotEnoughBytes)
        } else {
            Ok((GuaranteedTimeSlotDescriptor::from_bytes(s), 3))
        }
    }

    /// Whether the starting slot and the length fit their nibbles.
    pub open spec fn is_valid(self) -> bool {
        self.starting_slot <= 15 && self.length <= 15
    }

    /// Create a new empty slot
    pub fn new() -> (d: Self)
        ensures
            d == Self::empty(),
    {
        GuaranteedTimeSlotDescriptor {
            short_address: ShortAddress::broadcast(),
            starting_slot: 0,
            length: 0,
            direction: Direction::Receive,
        }
    }

    /// Decode guaranteed time slot descriptor from byte buffer
    ///
    /// # Returns
    ///
    /// Returns [`GuaranteedTimeSlotDescriptor`] and the number of bytes used are returned
    ///
    /// # Errors
    ///
    /// This function returns an error, if the bytes either don't are enough or
    /// dont't contain valid data. Please refer to [`DecodeError`] for details.
    pub fn decode(buf: &[u8]) -> (r: Result<(Self, usize), DecodeError>)
        ensures
            r == Self::decoded(buf@),
    {
        if buf.len() < DESCRIPTOR_SIZE {
            return Err(DecodeError::NotEnoughBytes);
        }
        let short_address = match ShortAddress::decode(&buf[0..2]) {
            Ok((a, _)) => a,
            Err(e) => return Err(e),
        };
        assert(buf@.subrange(0, 2).take(2) =~= buf@.take(2));
        let byte = buf[2];
        let starting_slot = byte & 0x0f;
        let length = byte >> 4;
        Ok(
            (
                GuaranteedTimeSlotDescriptor {
                    short_address,
                    starting_slot,
                    length,
                    // The direction comes from the information that holds the slot.
                    direction: Direction::Receive,
                },
                DESCRIPTOR_SIZE,
            ),
        )
    }

    /// Writes the descriptor at position `pos` of `buf`; returns the number
    /// of bytes written.
    fn encode_at(&self, buf: &mut [u8], pos: usize) -> (n: usize)
        requires
            pos + 3 <= old(buf)@.len(),
        ensures
            n == 3,
            final(buf)@ == written(old(buf)@, pos as int, self.bytes()),
    {
        proof {
            short_address_roundtrip(self.short_address, Seq::empty());
        }
        assert(pos + 2 < buf.len());
        let slot_pos = pos + 2;
        self.short_address.encode_at(buf, pos);
        buf[slot_pos] = self.starting_slot | self.length << 4;
        assert(final(buf)@ =~= written(old(buf)@, pos as int, self.bytes()));
        DESCRIPTOR_SIZE
    }

    /// Encode guaranteed time slot descriptor into byte buffer
    ///
    /// # Returns
    ///
    /// Returns the number of bytes written to the buffer
    ///
    /// # Panics
    ///
    /// Panics if the buffer is not long enough to hold the frame.
    pub fn encode(&self, buf: &mut [u8]) -> (n: usize)
        requires
            old(buf)@.len() >= 3,
        ensures
            n == 3,
            final(buf)@ == written(old(buf)@, 0, self.bytes()),
    {
        self.encode_at(buf, 0)
    }

    /// Set the direction for this slot
    fn set_direction(&mut self, direction: Direction)
        ensures
            *final(self) == (GuaranteedTimeSlotDescriptor { direction, ..*old(self) }),
    {
        self.direction = direction;
    }

    /// Returns `true` if this is a transmit slot
    fn direction_transmit(&self) -> (r: bool)
        ensures
            r == (self.direction == Direction::Transmit),
    {
        self.direction == Direction::Transmit
    }
}

/// Decoding the encoding of a valid descriptor gives it back as a receive
/// slot; encoding a decoded descriptor gives back the three bytes it was
/// decoded from.
pub proof fn descriptor_roundtrip(d: GuaranteedTimeSlotDescriptor, s: Seq<u8>)
    ensures
        d.bytes().len() == 3,
        d.is_valid() ==> GuaranteedTimeSlotDescriptor::decoded(d.bytes()) == Ok::<
            (GuaranteedTimeSlotDescriptor, usize),
            DecodeError,
        >((GuaranteedTimeSlotDescriptor { direction: Direction::Receive, ..d }, 3)),
        s.len() >= 3 ==> GuaranteedTimeSlotDescriptor::from_bytes(s).is_valid(),
        s.len() >= 3 ==> GuaranteedTimeSlotDescriptor::from_bytes(s).bytes() == s.take(3),
{
    short_address_roundtrip(d.short_address, s);
    let st = d.starting_slot;
    let len = d.length;
    assert(st <= 15 && len <= 15 ==> (st | (len << 4u8)) & 0x0f == st && (st | (len << 4u8)) >> 4u8
        == len) by (bit_vector);
    assert(d.bytes().take(2) =~= d.short_address.bytes());
    assert(d.short_address.bytes().take(2) =~= d.short_address.bytes());
    assert(d.bytes()[2] == d.slot_byte());
    if s.len() >= 3 {
        let b = s[2];
        assert(b & 0x0f <= 15 && b >> 4u8 <= 15 && ((b & 0x0f) | ((b >> 4u8) << 4u8)) == b)
            by (bit_vector);
        assert(GuaranteedTimeSlotDescriptor::from_bytes(s).bytes() =~= s.take(3));
    }
}

pub const COUNT_MASK: u8 = 0b0000_0111;

pub const PERMIT: u8 = 0b1000_0000;

/// The encodings of the descriptors `ds`, one after the other.
pub open spec fn descriptors_bytes(ds: Seq<GuaranteedTimeSlotDescriptor>) -> Seq<u8>
    decreases ds.len(),
{
    if ds.len() == 0 {
        Seq::empty()
    } else {
        descriptors_bytes(ds.drop_last()) + ds.last().bytes()
    }
}

/// The direction byte for the first `n` descriptors of `ds`: bit `i` is set
/// when descriptor `i` is a transmit slot.
pub open spec fn direction_bits(ds: Seq<GuaranteedTimeSlotDescriptor>, n: nat) -> u8
    decreases n,
{
    if n == 0 {
        0
    } else {
        direction_bits(ds, (n - 1) as nat) | (if ds[n - 1].direction == Direction::Transmit {
            1u8 << ((n - 1) as u8)
        } else {
            0u8
        })
    }
}

/// The direction that bit `i` of the direction byte `mask` stands for.
pub open spec fn direction_bit(mask: u8, i: int) -> Direction {
    if (mask >> (i as u8)) & 1u8 == 1u8 {
        Direction::Transmit
    } else {
        Direction::Receive
    }
}

/// The descriptors' encodings sit three bytes apart.
pub proof fn lemma_descriptors_bytes(ds: Seq<GuaranteedTimeSlotDescriptor>)
    ensures
        descriptors_bytes(ds).len() == 3 * ds.len(),
        forall|i: int|
            0 <= i < ds.len() ==> #[trigger] descriptors_bytes(ds).subrange(3 * i, 3 * i + 3)
                == ds[i].bytes(),
    decreases ds.len(),
{
    if ds.len() > 0 {
        let init = ds.drop_last();
        lemma_descriptors_bytes(init);
        descriptor_roundtrip(ds.last(), Seq::empty());
        let whole = descriptors_bytes(ds);
        assert forall|i: int| 0 <= i < ds.len() implies #[trigger] whole.subrange(3 * i, 3 * i + 3)
            == ds[i].bytes() by {
            if i < init.len() {
                assert(whole.subrange(3 * i, 3 * i + 3) =~= descriptors_bytes(init).subrange(
                    3 * i,
                    3 * i + 3,
                ));
                assert(init[i] == ds[i]);
            } else {
                assert(whole.subrange(3 * i, 3 * i + 3) =~= ds.last().bytes());
            }
        }
    }
}

/// Bit `i` of the direction byte of the first `n` descriptors tells the
/// direction of descriptor `i`; the bits from `n` on are clear.
pub proof fn lemma_direction_bits(ds: Seq<GuaranteedTimeSlotDescriptor>, n: nat)
    requires
        n <= 8,
        n <= ds.len(),
    ensures
        forall|i: int| 0 <= i < n ==> #[trigger] direction_bit(direction_bits(ds, n), i) == ds[i].direction,
        forall|i: int| n <= i < 8 ==> (#[trigger] (direction_bits(ds, n) >> (i as u8))) & 1u8 == 0u8,
    decreases n,
{
    if n > 0 {
        let k = (n - 1) as nat;
        lemma_direction_bits(ds, k);
        let prev = direction_bits(ds, k);
        let kb = k as u8;
        let t = ds[k as int].direction == Direction::Transmit;
        let m = direction_bits(ds, n);
        assert(m == prev | (if t { 1u8 << kb } else { 0u8 }));
        assert forall|i: int| 0 <= i < n implies #[trigger] direction_bit(m, i) == ds[i].direction by {
            let ib = i as u8;
            if i < k {
                assert(direction_bit(prev, i) == ds[i].direction);
                assert(ib < kb && kb < 8 ==> ((prev | (1u8 << kb)) >> ib) & 1u8 == (prev >> ib) & 1u8
                    && ((prev | 0u8) >> ib) & 1u8 == (prev >> ib) & 1u8) by (bit_vector);
            } else {
                assert((prev >> kb) & 1u8 == 0u8);
                assert(kb < 8 && (prev >> kb) & 1u8 == 0u8 ==> ((prev | (1u8 << kb)) >> kb) & 1u8
                    == 1u8 && ((prev | 0u8) >> kb) & 1u8 == 0u8) by (bit_vector);
            }
        }
        assert forall|i: int| n <= i < 8 implies (#[trigger] (m >> (i as u8))) & 1u8 == 0u8 by {
            let ib = i as u8;
            assert((prev >> ib) & 1u8 == 0u8);
            assert(kb < ib && ib < 8 && (prev >> ib) & 1u8 == 0u8 ==> ((prev | (1u8 << kb)) >> ib)
                & 1u8 == 0u8 && ((prev | 0u8) >> ib) & 1u8 == 0u8) by (bit_vector);
        }
    } else {
        assert forall|i: int| 0 <= i < 8 implies (#[trigger] (direction_bits(ds, 0) >> (i as u8)))
            & 1u8 == 0u8 by {
            let ib = i as u8;
            assert((0u8 >> ib) & 1u8 == 0u8) by (bit_vector);
        }
    }
}

/// Information of the guaranteed time slots (GTSs)
#[derive(Clone, Copy, Debug, Eq, Hash, PartialEq)]
pub struct GuaranteedTimeSlotInformation {
    /// Permit GTS
    pub permit: bool,
    /// Number of slots in use, at the start of `slots`
    pub slot_count: usize,
    /// The slots; those from `slot_count` on are not in use
    pub slots: [GuaranteedTimeSlotDescriptor; 7],
}

impl View for GuaranteedTimeSlotInformation {
    type V = (bool, Seq<GuaranteedTimeSlotDescriptor>);

    /// The permit flag and the slots in use.
    open spec fn view(&self) -> (bool, Seq<GuaranteedTimeSlotDescriptor>) {
        (self.permit, self.slots@.take(self.slot_count as int))
    }
}

impl GuaranteedTimeSlotInformation {
    /// Whether the slot count fits the slots, and so the three-bit field.
    pub open spec fn wf(self) -> bool {
        self.slot_count <= 7
    }

    /// Whether every field in use fits its place in the encoding.
    pub open spec fn is_valid(self) -> bool {
        &&& self.wf()
        &&& forall|i: int| 0 <= i < self.slot_count ==> (#[trigger] self.slots@[i]).is_valid()
    }

    /// The first byte written: the slot count in bits 0 to 2, the permit in bit 7.
    pub open spec fn header_byte(self) -> u8 {
        ((self.slot_count as u8) & COUNT_MASK) | flag_bits(self.permit, PERMIT)
    }

    /// The direction byte written when slots are in use.
    pub open spec fn direction_byte(self) -> u8 {
        direction_bits(self.slots@, self.slot_count as nat)
    }

    /// The number of bytes written.
    pub open spec fn encoded_len(self) -> nat {
        if self.slot_count == 0 {
            1
        } else {
            (2 + 3 * self.slot_count) as nat
        }
    }

    /// The encoding: the header byte alone when no slot is in use, else the
    /// header byte, the direction byte and the slots in use.
    pub open spec fn bytes(self) -> Seq<u8> {
        if self.slot_count == 0 {
            seq![self.header_byte()]
        } else {
            seq![self.header_byte(), self.direction_byte()] + descriptors_bytes(
                self.slots@.take(self.slot_count as int),
            )
        }
    }

    /// The slot count in the header byte `b`.
    pub open spec fn count_of(b: u8) -> usize {
        (b & COUNT_MASK) as usize
    }

    /// The number of bytes that decoding `s` uses.
    pub open spec fn decoded_len(s: Seq<u8>) -> nat {
        let count = Self::count_of(s[0]);
        if count == 0 {
            1
        } else {
            (2 + 3 * count) as nat
        }
    }

    /// Whether `s` holds a whole GTS information.
    pub open spec fn can_decode(s: Seq<u8>) -> bool {
        s.len() >= 1 && s.len() >= Self::decoded_len(s)
    }

    /// Slot `i` as held by `s`: its three bytes after the header and the
    /// direction byte, its direction from bit `i` of the direction byte.
    pub open spec fn slot_in(s: Seq<u8>, i: int) -> GuaranteedTimeSlotDescriptor {
        GuaranteedTimeSlotDescriptor {
            direction: direction_bit(s[1], i),
            ..GuaranteedTimeSlotDescriptor::from_bytes(s.skip(2 + 3 * i))
        }
    }

    /// Whether `v` is what decoding `s` gives: permit and count from the
    /// header, the slots in use from the bytes after it, the rest empty.
    pub open spec fn decodes_to(s: Seq<u8>, v: GuaranteedTimeSlotInformation) -> bool {
        &&& v.permit == ((s[0] & PERMIT) == PERMIT)
        &&& v.slot_count == Self::count_of(s[0])
        &&& forall|i: int|
            0 <= i < 7 ==> #[trigger] v.slots@[i] == if i < v.slot_count {
                Self::slot_in(s, i)
            } else {
                GuaranteedTimeSlotDescriptor::empty()
            }
    }

    /// The encoding is as long as it says.
    pub proof fn lemma_bytes_len(self)
        requires
            self.wf(),
        ensures
            self.bytes().len() == self.encoded_len(),
    {
        lemma_descriptors_bytes(self.slots@.take(self.slot_count as int));
    }

    /// Create a new empty GTS information
    pub fn new() -> (v: Self)
        ensures
            !v.permit,
            v.slot_count == 0,
            forall|i: int| 0 <= i < 7 ==> #[trigger] v.slots@[i] == GuaranteedTimeSlotDescriptor::empty(),
    {
        GuaranteedTimeSlotInformation {
            permit: false,
            slot_count: 0,
            slots: [GuaranteedTimeSlotDescriptor::new(); 7],
        }
    }

    /// Decode guaranteed time slot information from byte buffer
    ///
    /// # Returns
    ///
    /// Returns [`GuaranteedTimeSlotInformation`] and the number of bytes used are returned
    ///
    /// # Errors
    ///
    /// This function returns an error, if the bytes either don't are enough or
    /// dont't contain valid data. Please refer to [`DecodeError`] for details.
    pub fn decode(buf: &[u8]) -> (r: Result<(Self, usize), DecodeError>)
        ensures
            r is Err <==> !Self::can_decode(buf@),
            r is Err ==> r == Err::<(Self, usize), DecodeError>(DecodeError::NotEnoughBytes),
            r matches Ok((v, n)) ==> n == Self::decoded_len(buf@) && Self::decodes_to(buf@, v),
    {
        if buf.len() < 1 {
            return Err(DecodeError::NotEnoughBytes);
        }
        let byte = buf[0];
        let slot_count = (byte & COUNT_MASK) as usize;
        assert(byte & COUNT_MASK <= 7) by (bit_vector);
        let permit = (byte & PERMIT) == PERMIT;
        let mut slots = [
            GuaranteedTimeSlotDescriptor {
                short_address: ShortAddress::broadcast(),
                starting_slot: 0,
                length: 0,
                direction: Direction::Receive,
            };
            7
        ];
        let mut offset: usize = 1;
        if slot_count > 0 {
            if buf.len() < 2 + (3 * slot_count) {
                return Err(DecodeError::NotEnoughBytes);
            }
            let mut direction_mask = buf[1];
            assert(direction_mask >> 0u8 == direction_mask) by (bit_vector);
            offset += 1;
            let mut n: usize = 0;
            while n < slot_count
                invariant
                    0 < slot_count <= 7,
                    slot_count == Self::count_of(buf@[0]),
                    2 + 3 * slot_count <= buf@.len(),
                    n <= slot_count,
                    offset == 2 + 3 * n,
                    direction_mask == buf@[1] >> (n as u8),
                    forall|i: int|
                        0 <= i < 7 ==> #[trigger] slots@[i] == if i < n {
                            Self::slot_in(buf@, i)
                        } else {
                            GuaranteedTimeSlotDescriptor::empty()
                        },
                decreases slot_count - n,
            {
                let (mut slot, size) = match GuaranteedTimeSlotDescriptor::decode(
                    &buf[offset..buf.len()],
                ) {
                    Ok(decoded) => decoded,
                    Err(e) => return Err(e),
                };
                assert(buf@.subrange(offset as int, buf@.len() as int) =~= buf@.skip(offset as int));
                assert(size == DESCRIPTOR_SIZE);
                let direction = if direction_mask & 0b1 == 0b1 {
                    Direction::Transmit
                } else {
                    Direction::Receive
                };
                let ghost b1 = buf@[1];
                let ghost nb = n as u8;
                assert((b1 >> nb) >> 1u8 == b1 >> ((nb + 1) as u8) && ((b1 >> nb) & 1u8 == 1u8) == (
                (b1 >> nb) & 0b1 == 0b1)) by (bit_vector)
                    requires
                        nb < 7,
                ;
                slot.set_direction(direction);
                direction_mask = direction_mask >> 1;
                offset = offset + size;
                slots[n] = slot;
                n += 1;
            }
        }
        Ok((GuaranteedTimeSlotInformation { permit, slot_count, slots }, offset))
    }

    /// Writes the information at position `pos` of `buf`; returns the number
    /// of bytes written.
    fn encode_at(&self, buf: &mut [u8], pos: usize) -> (size: usize)
        requires
            self.wf(),
            pos + self.encoded_len() <= old(buf)@.len(),
        ensures
            size == self.encoded_len(),
            final(buf)@ == written(old(buf)@, pos as int, self.bytes()),
    {
        let ghost start0 = buf@;
        assert(pos + self.encoded_len() <= buf.len());
        let mut size = 1usize;  // header byte
        let permit = if self.permit {
            PERMIT
        } else {
            0
        };
        buf[pos] = ((self.slot_count as u8) & COUNT_MASK) | permit;
        assert(buf@ =~= written(start0, pos as int, seq![self.header_byte()]));
        if self.slot_count > 0 {
            size += 1;  // direction field
            let ghost start = buf@;
            let ghost slots = self.slots@;
            let mut dir: u8 = 0x01;
            let mut direction_mask = 0u8;
            let mut offset = pos + 2;
            let mut n: usize = 0;
            assert(1u8 << 0u8 == 1u8) by (bit_vector);
            assert(descriptors_bytes(slots.take(0)) =~= Seq::<u8>::empty());
            assert(buf@ =~= written(start, pos + 2, Seq::<u8>::empty()));
            while n < self.slot_count
                invariant
                    self.wf(),
                    0 < self.slot_count,
                    n <= self.slot_count,
                    slots == self.slots@,
                    pos + self.encoded_len() <= start.len() <= usize::MAX,
                    start == written(start0, pos as int, seq![self.header_byte()]),
                    size == 2 + 3 * n,
                    offset == pos + 2 + 3 * n,
                    dir == 1u8 << (n as u8),
                    direction_mask == direction_bits(slots, n as nat),
                    buf@ == written(start, pos + 2, descriptors_bytes(slots.take(n as int))),
                decreases self.slot_count - n,
            {
                let slot = self.slots[n];
                proof {
                    lemma_descriptors_bytes(slots.take(n as int));
                    descriptor_roundtrip(slot, Seq::empty());
                    lemma_written_twice(
                        start,
                        pos + 2,
                        descriptors_bytes(slots.take(n as int)),
                        slot.bytes(),
                    );
                    assert(slots.take(n + 1).drop_last() =~= slots.take(n as int));
                }
                let slot_size = slot.encode_at(buf, offset);
                size += slot_size;
                offset += slot_size;
                let ghost before = direction_mask;
                if slot.direction_transmit() {
                    direction_mask = direction_mask | dir;
                }
                assert(before | 0u8 == before) by (bit_vector);
                let ghost nb = n as u8;
                assert((1u8 << nb) << 1u8 == 1u8 << ((nb + 1) as u8)) by (bit_vector)
                    requires
                        nb < 7,
                ;
                dir = dir << 1;
                n += 1;
            }
            assert(slots.take(n as int) == slots.take(self.slot_count as int));
            buf[pos + 1] = direction_mask;
            proof {
                lemma_descriptors_bytes(slots.take(n as int));
            }
            assert(buf@ =~= written(start0, pos as int, self.bytes()));
        }
        size
    }

    /// Encode guaranteed time slot information into a byte buffer
    ///
    /// # Returns
    ///
    /// Returns the number of bytes written to the buffer
    ///
    /// # Panics
    ///
    /// Panics if the buffer is not long enough to hold the frame.
    pub fn encode(&self, buf: &mut [u8]) -> (size: usize)
        requires
            self.wf(),
            old(buf)@.len() >= self.encoded_len(),
        ensures
            size == self.encoded_len(),
            size == self.bytes().len(),
            final(buf)@ == written(old(buf)@, 0, self.bytes()),
    {
        proof {
            self.lemma_bytes_len();
        }
        self.encode_at(buf, 0)
    }

    /// Get the slots as a slice
    pub fn slots(&self) -> (r: &[GuaranteedTimeSlotDescriptor])
        requires
            self.wf(),
        ensures
            r@ == self@.1,
    {
        &self.slots.as_slice()[0..self.slot_count]
    }
}

/// A descriptor read from bytes depends on their first three only.
proof fn lemma_descriptor_prefix(s: Seq<u8>, t: Seq<u8>)
    requires
        s.len() >= 3,
        t.len() >= 3,
        s.take(3) == t.take(3),
    ensures
        GuaranteedTimeSlotDescriptor::from_bytes(s) == GuaranteedTimeSlotDescriptor::from_bytes(t),
{
    assert(s.take(2) =~= s.take(3).take(2));
    assert(t.take(2) =~= t.take(3).take(2));
    assert(s[2] == s.take(3)[2]);
    assert(t[2] == t.take(3)[2]);
}

/// What decoding the encoding of a valid GTS information reads: its permit,
/// its slot count and each slot in use.
proof fn lemma_gts_information_bytes(v: GuaranteedTimeSlotInformation)
    requires
        v.is_valid(),
    ensures
        v.bytes().len() == v.encoded_len(),
        GuaranteedTimeSlotInformation::can_decode(v.bytes()),
        GuaranteedTimeSlotInformation::decoded_len(v.bytes()) == v.encoded_len(),
        (v.bytes()[0] & PERMIT) == PERMIT <==> v.permit,
        GuaranteedTimeSlotInformation::count_of(v.bytes()[0]) == v.slot_count,
        forall|i: int|
            0 <= i < v.slot_count ==> #[trigger] GuaranteedTimeSlotInformation::slot_in(v.bytes(), i)
                == v.slots@[i],
{
    let b = v.bytes();
    let c = v.slot_count;
    let cb = c as u8;
    let p = v.permit;
    assert(cb <= 7 ==> {
        let h = (cb & 7u8) | (if p { 0x80u8 } else { 0u8 });
        &&& (h & 7u8) == cb
        &&& ((h & 0x80u8) == 0x80u8) == p
    }) by (bit_vector);
    assert(b[0] == v.header_byte());
    if c > 0 {
        let ds = v.slots@.take(c as int);
        let x = descriptors_bytes(ds);
        lemma_descriptors_bytes(ds);
        lemma_direction_bits(v.slots@, c as nat);
        assert(b[1] == v.direction_byte());
        assert forall|i: int| 0 <= i < c implies #[trigger] GuaranteedTimeSlotInformation::slot_in(b, i)
            == v.slots@[i] by {
            let d = v.slots@[i];
            assert(d.is_valid());
            assert(ds[i] == d);
            descriptor_roundtrip(d, Seq::empty());
            assert(x.subrange(3 * i, 3 * i + 3) == d.bytes());
            assert(b.skip(2 + 3 * i).take(3) =~= d.bytes());
            assert(d.bytes().take(3) =~= d.bytes());
            lemma_descriptor_prefix(b.skip(2 + 3 * i), d.bytes());
            assert(GuaranteedTimeSlotDescriptor::decoded(d.bytes()) == Ok::<
                (GuaranteedTimeSlotDescriptor, usize),
                DecodeError,
            >((GuaranteedTimeSlotDescriptor { direction: Direction::Receive, ..d }, 3)));
        }
    }
}

/// Decoding the encoding of a valid GTS information gives back its permit
/// and the slots in use.
pub proof fn gts_information_encode_decode(
    v: GuaranteedTimeSlotInformation,
    w: GuaranteedTimeSlotInformation,
)
    requires
        v.is_valid(),
    ensures
        GuaranteedTimeSlotInformation::can_decode(v.bytes()),
        GuaranteedTimeSlotInformation::decoded_len(v.bytes()) == v.bytes().len(),
        GuaranteedTimeSlotInformation::decodes_to(v.bytes(), w) ==> w@ == v@,
{
    lemma_gts_information_bytes(v);
    if GuaranteedTimeSlotInformation::decodes_to(v.bytes(), w) {
        assert(w.slots@.take(w.slot_count as int) =~= v.slots@.take(v.slot_count as int));
    }
}

/// A decoded GTS information is valid, and decoding its encoding gives it
/// back whole.
pub proof fn gts_information_decode_encode(s: Seq<u8>, v: GuaranteedTimeSlotInformation)
    requires
        GuaranteedTimeSlotInformation::can_decode(s),
        GuaranteedTimeSlotInformation::decodes_to(s, v),
    ensures
        v.is_valid(),
        GuaranteedTimeSlotInformation::can_decode(v.bytes()),
        GuaranteedTimeSlotInformation::decoded_len(v.bytes()) == GuaranteedTimeSlotInformation::decoded_len(s),
        GuaranteedTimeSlotInformation::decodes_to(v.bytes(), v),
{
    let b0 = s[0];
    assert(b0 & 7u8 <= 7) by (bit_vector);
    assert forall|i: int| 0 <= i < v.slot_count implies (#[trigger] v.slots@[i]).is_valid() by {
        descriptor_roundtrip(v.slots@[i], s.skip(2 + 3 * i));
    }
    lemma_gts_information_bytes(v);
}

pub const SHORT_MASK: u8 = 0b0000_0111;

pub const EXTENDED_MASK: u8 = 0b0111_0000;

/// Bytes taken by a short address.
const SHORT_ADDRESS_SIZE: usize = 2;

/// Bytes taken by an extended address.
const EXTENDED_ADDRESS_SIZE: usize = 8;

/// The encodings of the short addresses `xs`, one after the other.
pub open spec fn short_addresses_bytes(xs: Seq<ShortAddress>) -> Seq<u8>
    decreases xs.len(),
{
    if xs.len() == 0 {
        Seq::empty()
    } else {
        short_addresses_bytes(xs.drop_last()) + xs.last().bytes()
    }
}

/// The encodings of the extended addresses `xs`, one after the other.
pub open spec fn extended_addresses_bytes(xs: Seq<ExtendedAddress>) -> Seq<u8>
    decreases xs.len(),
{
    if xs.len() == 0 {
        Seq::empty()
    } else {
        extended_addresses_bytes(xs.drop_last()) + xs.last().bytes()
    }
}

/// The short addresses' encodings sit two bytes apart.
pub proof fn lemma_short_addresses_bytes(xs: Seq<ShortAddress>)
    ensures
        short_addresses_bytes(xs).len() == 2 * xs.len(),
        forall|i: int|
            0 <= i < xs.len() ==> #[trigger] short_addresses_bytes(xs).subrange(2 * i, 2 * i + 2)
                == xs[i].bytes(),
    decreases xs.len(),
{
    if xs.len() > 0 {
        let init = xs.drop_last();
        lemma_short_addresses_bytes(init);
        short_address_roundtrip(xs.last(), Seq::empty());
        let whole = short_addresses_bytes(xs);
        assert forall|i: int| 0 <= i < xs.len() implies #[trigger] whole.subrange(2 * i, 2 * i + 2)
            == xs[i].bytes() by {
            if i < init.len() {
                assert(whole.subrange(2 * i, 2 * i + 2) =~= short_addresses_bytes(init).subrange(
                    2 * i,
                    2 * i + 2,
                ));
                assert(init[i] == xs[i]);
            } else {
                assert(whole.subrange(2 * i, 2 * i + 2) =~= xs.last().bytes());
            }
        }
    }
}

/// The extended addresses' encodings sit eight bytes apart.
pub proof fn lemma_extended_addresses_bytes(xs: Seq<ExtendedAddress>)
    ensures
        extended_addresses_bytes(xs).len() == 8 * xs.len(),
        forall|i: int|
            0 <= i < xs.len() ==> #[trigger] extended_addresses_bytes(xs).subrange(8 * i, 8 * i + 8)
                == xs[i].bytes(),
    decreases xs.len(),
{
    if xs.len() > 0 {
        let init = xs.drop_last();
        lemma_extended_addresses_bytes(init);
        extended_address_roundtrip(xs.last(), Seq::empty());
        let whole = extended_addresses_bytes(xs);
        assert forall|i: int| 0 <= i < xs.len() implies #[trigger] whole.subrange(8 * i, 8 * i + 8)
            == xs[i].bytes() by {
            if i < init.len() {
                assert(whole.subrange(8 * i, 8 * i + 8) =~= extended_addresses_bytes(init).subrange(
                    8 * i,
                    8 * i + 8,
                ));
                assert(init[i] == xs[i]);
            } else {
                assert(whole.subrange(8 * i, 8 * i + 8) =~= xs.last().bytes());
            }
        }
    }
}

/// # Pending Address(es)
///
/// Addresses to devices that has pending messages with the coordinator
///
/// ```notrust
/// +--------+-----------------+--------------------+
/// | Header | Short Addresses | Extended Addresses |
/// +--------+-----------------+--------------------+
///     1          0 - 14             0 - 448          octets
/// ```
///
/// ## Header
///
/// ```notrust
/// +-------------+----------+----------------+----------+
/// | Short Count | Reserved | Extended Count | Reserved |
/// +-------------+----------+----------------+----------+
///      0 - 2         3         4 - 6             7        bit
/// ```
///
#[derive(Clone, Copy, Debug, Eq, Hash, PartialEq)]
pub struct PendingAddress {
    /// Number of short addresses in use, at the start of `short_addresses`
    pub short_address_count: usize,
    /// The short addresses; those from `short_address_count` on are not in use
    pub short_addresses: [ShortAddress; 7],
    /// Number of extended addresses in use, at the start of `extended_addresses`
    pub extended_address_count: usize,
    /// The extended addresses; those from `extended_address_count` on are not in use
    pub extended_addresses: [ExtendedAddress; 7],
}

impl View for PendingAddress {
    type V = (Seq<ShortAddress>, Seq<ExtendedAddress>);

    /// The short and the extended addresses in use.
    open spec fn view(&self) -> (Seq<ShortAddress>, Seq<ExtendedAddress>) {
        (
            self.short_addresses@.take(self.short_address_count as int),
            self.extended_addresses@.take(self.extended_address_count as int),
        )
    }
}

impl PendingAddress {
    /// Whether both counts fit their arrays, and so their three-bit fields.
    pub open spec fn wf(self) -> bool {
        self.short_address_count <= 7 && self.extended_address_count <= 7
    }

    /// The header byte written: the short count in bits 0 to 2, the
    /// extended count in bits 4 to 6.
    pub open spec fn header_byte(self) -> u8 {
        (((self.extended_address_count as u8) << 4u8) & EXTENDED_MASK) | ((
        self.short_address_count as u8) & SHORT_MASK)
    }

    /// The number of bytes written.
    pub open spec fn encoded_len(self) -> nat {
        (1 + 2 * self.short_address_count + 8 * self.extended_address_count) as nat
    }

    /// The encoding: the header byte, the short addresses in use, then the
    /// extended addresses in use.
    pub open spec fn bytes(self) -> Seq<u8> {
        seq![self.header_byte()] + short_addresses_bytes(
            self.short_addresses@.take(self.short_address_count as int),
        ) + extended_addresses_bytes(
            self.extended_addresses@.take(self.extended_address_count as int),
        )
    }

    /// The short address count in the header byte `b`.
    pub open spec fn short_count_of(b: u8) -> usize {
        (b & SHORT_MASK) as usize
    }

    /// The extended address count in the header byte `b`.
    pub open spec fn extended_count_of(b: u8) -> usize {
        ((b & EXTENDED_MASK) >> 4u8) as usize
    }

    /// The number of bytes that decoding `s` uses.
    pub open spec fn decoded_len(s: Seq<u8>) -> nat {
        (1 + 2 * Self::short_count_of(s[0]) + 8 * Self::extended_count_of(s[0])) as nat
    }

    /// Whether `s` holds whole pending addresses.
    pub open spec fn can_decode(s: Seq<u8>) -> bool {
        s.len() >= 1 && s.len() >= Self::decoded_len(s)
    }

    /// Whether `v` is what decoding `s` gives: the counts from the header,
    /// the addresses in use from the bytes after it, the rest broadcast.
    pub open spec fn decodes_to(s: Seq<u8>, v: PendingAddress) -> bool {
        let sl = Self::short_count_of(s[0]);
        &&& v.short_address_count == sl
        &&& v.extended_address_count == Self::extended_count_of(s[0])
        &&& forall|i: int|
            0 <= i < 7 ==> #[trigger] v.short_addresses@[i] == if i < v.short_address_count {
                ShortAddress::from_bytes(s.skip(1 + 2 * i))
            } else {
                ShortAddress(0xffff)
            }
        &&& forall|i: int|
            0 <= i < 7 ==> #[trigger] v.extended_addresses@[i] == if i < v.extended_address_count {
                ExtendedAddress::from_bytes(s.skip(1 + 2 * sl + 8 * i))
            } else {
                ExtendedAddress(0xffff_ffff_ffff_ffff)
            }
    }

    /// The encoding is as long as it says.
    pub proof fn lemma_bytes_len(self)
        requires
            self.wf(),
        ensures
            self.bytes().len() == self.encoded_len(),
    {
        lemma_short_addresses_bytes(self.short_addresses@.take(self.short_address_count as int));
        lemma_extended_addresses_bytes(
            self.extended_addresses@.take(self.extended_address_count as int),
        );
    }

    /// Create a new empty PendingAddress struct
    pub fn new() -> (v: Self)
        ensures
            v.short_address_count == 0,
            v.extended_address_count == 0,
            forall|i: int| 0 <= i < 7 ==> #[trigger] v.short_addresses@[i] == ShortAddress(0xffff),
            forall|i: int|
                0 <= i < 7 ==> #[trigger] v.extended_addresses@[i] == ExtendedAddress(
                    0xffff_ffff_ffff_ffff,
                ),
    {
        PendingAddress {
            short_address_count: 0,
            short_addresses: [ShortAddress::broadcast(); 7],
            extended_address_count: 0,
            extended_addresses: [ExtendedAddress::broadcast(); 7],
        }
    }

    /// Decode pending address from byte buffer
    ///
    /// # Returns
    ///
    /// Returns [`PendingAddress`] and the number of bytes used are returned
    ///
    /// # Errors
    ///
    /// This function returns an error, if the bytes either don't are enough or
    /// dont't contain valid data. Please refer to [`DecodeError`] for details.
    pub fn decode(buf: &[u8]) -> (r: Result<(Self, usize), DecodeError>)
        ensures
            r is Err <==> !Self::can_decode(buf@),
            r is Err ==> r == Err::<(Self, usize), DecodeError>(DecodeError::NotEnoughBytes),
            r matches Ok((v, n)) ==> n == Self::decoded_len(buf@) && Self::decodes_to(buf@, v),
    {
        if buf.len() < 1 {
            return Err(DecodeError::NotEnoughBytes);
        }
        let ss = SHORT_ADDRESS_SIZE;
        let es = EXTENDED_ADDRESS_SIZE;
        let byte = buf[0];
        let sl = (byte & SHORT_MASK) as usize;
        let el = ((byte & EXTENDED_MASK) >> 4) as usize;
        assert(byte & SHORT_MASK <= 7 && (byte & EXTENDED_MASK) >> 4u8 <= 7) by (bit_vector);
        if buf.len() < 1 + (sl * ss) + (el * es) {
            return Err(DecodeError::NotEnoughBytes);
        }
        let mut offset = 1usize;
        let mut short_addresses = [ShortAddress::broadcast(); 7];
        let mut n: usize = 0;
        while n < sl
            invariant
                sl == Self::short_count_of(buf@[0]),
                el == Self::extended_count_of(buf@[0]),
                ss == 2,
                es == 8,
                sl <= 7,
                el <= 7,
                1 + 2 * sl + 8 * el <= buf@.len(),
                n <= sl,
                offset == 1 + 2 * n,
                forall|i: int|
                    0 <= i < 7 ==> #[trigger] short_addresses@[i] == if i < n {
                        ShortAddress::from_bytes(buf@.skip(1 + 2 * i))
                    } else {
                        ShortAddress(0xffff)
                    },
            decreases sl - n,
        {
            let (addr, size) = match ShortAddress::decode(&buf[offset..buf.len()]) {
                Ok(decoded) => decoded,
                Err(e) => return Err(e),
            };
            assert(buf@.subrange(offset as int, buf@.len() as int) =~= buf@.skip(offset as int));
            assert(size == ss);
            offset = offset + size;
            short_addresses[n] = addr;
            n += 1;
        }
        let mut extended_addresses = [ExtendedAddress::broadcast(); 7];
        let mut n: usize = 0;
        while n < el
            invariant
                sl == Self::short_count_of(buf@[0]),
                el == Self::extended_count_of(buf@[0]),
                ss == 2,
                es == 8,
                sl <= 7,
                el <= 7,
                1 + 2 * sl + 8 * el <= buf@.len(),
                n <= el,
                offset == 1 + 2 * sl + 8 * n,
                forall|i: int|
                    0 <= i < 7 ==> #[trigger] extended_addresses@[i] == if i < n {
                        ExtendedAddress::from_bytes(buf@.skip(1 + 2 * sl + 8 * i))
                    } else {
                        ExtendedAddress(0xffff_ffff_ffff_ffff)
                    },
            decreases el - n,
        {
            let (addr, size) = match ExtendedAddress::decode(&buf[offset..buf.len()]) {
                Ok(decoded) => decoded,
                Err(e) => return Err(e),
            };
            assert(buf@.subrange(offset as int, buf@.len() as int) =~= buf@.skip(offset as int));
            assert(size == es);
            offset = offset + size;
            extended_addresses[n] = addr;
            n += 1;
        }
        Ok(
            (
                PendingAddress {
                    short_address_count: sl,
                    short_addresses,
                    extended_address_count: el,
                    extended_addresses,
                },
                offset,
            ),
        )
    }

    /// Writes the addresses at position `pos` of `buf`; returns the number of
    /// bytes written.
    fn encode_at(&self, buf: &mut [u8], pos: usize) -> (size: usize)
        requires
            self.wf(),
            pos + self.encoded_len() <= old(buf)@.len(),
        ensures
            size == self.encoded_len(),
            final(buf)@ == written(old(buf)@, pos as int, self.bytes()),
    {
        let ghost start0 = buf@;
        assert(pos + self.encoded_len() <= buf.len());
        let ss = SHORT_ADDRESS_SIZE;
        let es = EXTENDED_ADDRESS_SIZE;
        let sl = self.short_address_count;
        let el = self.extended_address_count;
        buf[pos] = (((el as u8) << 4) & EXTENDED_MASK) | ((sl as u8) & SHORT_MASK);
        let ghost start = buf@;
        let ghost shorts = self.short_addresses@;
        let ghost extended = self.extended_addresses@;
        assert(start =~= written(start0, pos as int, seq![self.header_byte()]));
        let mut offset = pos + 1;
        let mut n: usize = 0;
        assert(short_addresses_bytes(shorts.take(0)) =~= Seq::<u8>::empty());
        assert(buf@ =~= written(start, pos + 1, Seq::<u8>::empty()));
        while n < sl
            invariant
                self.wf(),
                sl == self.short_address_count,
                ss == 2,
                shorts == self.short_addresses@,
                pos + self.encoded_len() <= start.len() <= usize::MAX,
                n <= sl,
                offset == pos + 1 + 2 * n,
                buf@ == written(start, pos + 1, short_addresses_bytes(shorts.take(n as int))),
            decreases sl - n,
        {
            let addr = self.short_addresses[n];
            proof {
                lemma_short_addresses_bytes(shorts.take(n as int));
                short_address_roundtrip(addr, Seq::empty());
                lemma_written_twice(
                    start,
                    pos + 1,
                    short_addresses_bytes(shorts.take(n as int)),
                    addr.bytes(),
                );
                assert(shorts.take(n + 1).drop_last() =~= shorts.take(n as int));
            }
            addr.encode_at(buf, offset);
            offset = offset + ss;
            n += 1;
        }
        let ghost short_part = short_addresses_bytes(shorts.take(sl as int));
        proof {
            lemma_short_addresses_bytes(shorts.take(sl as int));
            assert(short_part + extended_addresses_bytes(extended.take(0)) =~= short_part);
        }
        let mut n: usize = 0;
        while n < el
            invariant
                self.wf(),
                sl == self.short_address_count,
                el == self.extended_address_count,
                es == 8,
                extended == self.extended_addresses@,
                short_part.len() == 2 * sl,
                pos + self.encoded_len() <= start.len() <= usize::MAX,
                n <= el,
                offset == pos + 1 + 2 * sl + 8 * n,
                buf@ == written(
                    start,
                    pos + 1,
                    short_part + extended_addresses_bytes(extended.take(n as int)),
                ),
            decreases el - n,
        {
            let addr = self.extended_addresses[n];
            proof {
                let before = extended_addresses_bytes(extended.take(n as int));
                lemma_extended_addresses_bytes(extended.take(n as int));
                extended_address_roundtrip(addr, Seq::empty());
                lemma_written_twice(start, pos + 1, short_part + before, addr.bytes());
                assert(extended.take(n + 1).drop_last() =~= extended.take(n as int));
                assert(short_part + before + addr.bytes() =~= short_part + (before + addr.bytes()));
            }
            addr.encode_at(buf, offset);
            offset = offset + es;
            n += 1;
        }
        proof {
            let ext_part = extended_addresses_bytes(extended.take(el as int));
            lemma_extended_addresses_bytes(extended.take(el as int));
            lemma_written_twice(start0, pos as int, seq![self.header_byte()], short_part + ext_part);
            assert(seq![self.header_byte()] + (short_part + ext_part) =~= self.bytes());
        }
        1 + sl * ss + el * es
    }

    /// Encode pending address into byte buffer
    ///
    /// # Returns
    ///
    /// Returns the number of bytes written to the buffer
    ///
    /// # Panics
    ///
    /// Panics if the buffer is not long enough to hold the frame.
    pub fn encode(&self, buf: &mut [u8]) -> (size: usize)
        requires
            self.wf(),
            old(buf)@.len() >= self.encoded_len(),
        ensures
            size == self.encoded_len(),
            size == self.bytes().len(),
            final(buf)@ == written(old(buf)@, 0, self.bytes()),
    {
        proof {
            self.lemma_bytes_len();
        }
        self.encode_at(buf, 0)
    }

    /// Get the short addresses
    pub fn short_addresses(&self) -> (r: &[ShortAddress])
        requires
            self.wf(),
        ensures
            r@ == self@.0,
    {
        &self.short_addresses.as_slice()[0..self.short_address_count]
    }

    /// Get the extended address
    pub fn extended_addresses(&self) -> (r: &[ExtendedAddress])
        requires
            self.wf(),
        ensures
            r@ == self@.1,
    {
        &self.extended_addresses.as_slice()[0..self.extended_address_count]
    }
}

/// What decoding the encoding of well-formed pending addresses reads: the
/// two counts and each address in use.
proof fn lemma_pending_address_bytes(v: PendingAddress)
    requires
        v.wf(),
    ensures
        v.bytes().len() == v.encoded_len(),
        PendingAddress::can_decode(v.bytes()),
        PendingAddress::decoded_len(v.bytes()) == v.encoded_len(),
        PendingAddress::short_count_of(v.bytes()[0]) == v.short_address_count,
        PendingAddress::extended_count_of(v.bytes()[0]) == v.extended_address_count,
        forall|i: int|
            0 <= i < v.short_address_count ==> #[trigger] ShortAddress::from_bytes(
                v.bytes().skip(1 + 2 * i),
            ) == v.short_addresses@[i],
        forall|i: int|
            0 <= i < v.extended_address_count ==> #[trigger] ExtendedAddress::from_bytes(
                v.bytes().skip(1 + 2 * v.short_address_count + 8 * i),
            ) == v.extended_addresses@[i],
{
    let b = v.bytes();
    let sl = v.short_address_count;
    let el = v.extended_address_count;
    let sb = sl as u8;
    let eb = el as u8;
    assert(sb <= 7 && eb <= 7 ==> {
        let h = ((eb << 4u8) & 0x70u8) | (sb & 7u8);
        &&& h & 7u8 == sb
        &&& (h & 0x70u8) >> 4u8 == eb
    }) by (bit_vector);
    let xs = v.short_addresses@.take(sl as int);
    let ys = v.extended_addresses@.take(el as int);
    let sp = short_addresses_bytes(xs);
    let ep = extended_addresses_bytes(ys);
    lemma_short_addresses_bytes(xs);
    lemma_extended_addresses_bytes(ys);
    assert(b[0] == v.header_byte());
    assert forall|i: int| 0 <= i < sl implies #[trigger] ShortAddress::from_bytes(b.skip(1 + 2 * i))
        == v.short_addresses@[i] by {
        let a = v.short_addresses@[i];
        assert(xs[i] == a);
        short_address_roundtrip(a, Seq::empty());
        assert(sp.subrange(2 * i, 2 * i + 2) == a.bytes());
        assert(b.skip(1 + 2 * i).take(2) =~= a.bytes());
        assert(a.bytes().take(2) =~= a.bytes());
    }
    assert forall|i: int| 0 <= i < el implies #[trigger] ExtendedAddress::from_bytes(
        b.skip(1 + 2 * sl + 8 * i),
    ) == v.extended_addresses@[i] by {
        let a = v.extended_addresses@[i];
        assert(ys[i] == a);
        extended_address_roundtrip(a, Seq::empty());
        assert(ep.subrange(8 * i, 8 * i + 8) == a.bytes());
        assert(b.skip(1 + 2 * sl + 8 * i).take(8) =~= a.bytes());
        assert(a.bytes().take(8) =~= a.bytes());
    }
}

/// Decoding the encoding of well-formed pending addresses gives back the
/// addresses in use.
pub proof fn pending_address_encode_decode(v: PendingAddress, w: PendingAddress)
    requires
        v.wf(),
    ensures
        PendingAddress::can_decode(v.bytes()),
        PendingAddress::decoded_len(v.bytes()) == v.bytes().len(),
        PendingAddress::decodes_to(v.bytes(), w) ==> w@ == v@,
{
    lemma_pending_address_bytes(v);
    if PendingAddress::decodes_to(v.bytes(), w) {
        assert(w.short_addresses@.take(w.short_address_count as int) =~= v.short_addresses@.take(
            v.short_address_count as int,
        ));
        assert(w.extended_addresses@.take(w.extended_address_count as int)
            =~= v.extended_addresses@.take(v.extended_address_count as int));
    }
}

/// Decoded pending addresses are well formed, and decoding their encoding
/// gives them back whole.
pub proof fn pending_address_decode_encode(s: Seq<u8>, v: PendingAddress)
    requires
        PendingAddress::can_decode(s),
        PendingAddress::decodes_to(s, v),
    ensures
        v.wf(),
        PendingAddress::can_decode(v.bytes()),
        PendingAddress::decoded_len(v.bytes()) == PendingAddress::decoded_len(s),
        PendingAddress::decodes_to(v.bytes(), v),
{
    let b0 = s[0];
    assert(b0 & 7u8 <= 7 && (b0 & 0x70u8) >> 4u8 <= 7) by (bit_vector);
    lemma_pending_address_bytes(v);
}

/// Decoding GTS information reads no further than the bytes it uses: bytes
/// that agree with decodable bytes on those it uses decode as well, to the
/// same information and the same length, whatever follows.
pub proof fn gts_information_decode_prefix(
    s: Seq<u8>,
    t: Seq<u8>,
    v: GuaranteedTimeSlotInformation,
)
    requires
        GuaranteedTimeSlotInformation::can_decode(s),
        t.len() >= GuaranteedTimeSlotInformation::decoded_len(s),
        t.take(GuaranteedTimeSlotInformation::decoded_len(s) as int) == s.take(
            GuaranteedTimeSlotInformation::decoded_len(s) as int,
        ),
    ensures
        GuaranteedTimeSlotInformation::can_decode(t),
        GuaranteedTimeSlotInformation::decoded_len(t) == GuaranteedTimeSlotInformation::decoded_len(s),
        GuaranteedTimeSlotInformation::decodes_to(t, v) == GuaranteedTimeSlotInformation::decodes_to(s, v),
{
    let n = GuaranteedTimeSlotInformation::decoded_len(s) as int;
    assert(t[0] == t.take(n)[0]);
    assert(s[0] == s.take(n)[0]);
    let c = GuaranteedTimeSlotInformation::count_of(s[0]);
    if c > 0 {
        assert(t[1] == t.take(n)[1]);
        assert(s[1] == s.take(n)[1]);
        assert forall|i: int| 0 <= i < c implies #[trigger] GuaranteedTimeSlotInformation::slot_in(t, i)
            == GuaranteedTimeSlotInformation::slot_in(s, i) by {
            assert(t.skip(2 + 3 * i).take(3) =~= t.take(n).subrange(2 + 3 * i, 5 + 3 * i));
            assert(s.skip(2 + 3 * i).take(3) =~= s.take(n).subrange(2 + 3 * i, 5 + 3 * i));
            lemma_descriptor_prefix(t.skip(2 + 3 * i), s.skip(2 + 3 * i));
        }
    }
    if GuaranteedTimeSlotInformation::decodes_to(s, v) {
        assert forall|i: int| 0 <= i < 7 implies #[trigger] v.slots@[i] == if i < v.slot_count {
            GuaranteedTimeSlotInformation::slot_in(t, i)
        } else {
            GuaranteedTimeSlotDescriptor::empty()
        } by {
            if i < v.slot_count {
                assert(GuaranteedTimeSlotInformation::slot_in(t, i) == GuaranteedTimeSlotInformation::slot_in(s, i));
            }
        }
    }
    if GuaranteedTimeSlotInformation::decodes_to(t, v) {
        assert forall|i: int| 0 <= i < 7 implies #[trigger] v.slots@[i] == if i < v.slot_count {
            GuaranteedTimeSlotInformation::slot_in(s, i)
        } else {
            GuaranteedTimeSlotDescriptor::empty()
        } by {
            if i < v.slot_count {
                assert(GuaranteedTimeSlotInformation::slot_in(t, i) == GuaranteedTimeSlotInformation::slot_in(s, i));
            }
        }
    }
}

/// Beacon frame
#[derive(Clone, Copy, Debug, Eq, Hash, PartialEq)]
pub struct Beacon {
    /// Superframe specification
    pub superframe_spec: SuperframeSpecification,
    /// Guaranteed time slot information
    pub guaranteed_time_slot_info: GuaranteedTimeSlotInformation,
    /// Pending addresses
    pub pending_address: PendingAddress,
}

impl View for Beacon {
    type V = (
        SuperframeSpecification,
        (bool, Seq<GuaranteedTimeSlotDescriptor>),
        (Seq<ShortAddress>, Seq<ExtendedAddress>),
    );

    /// The superframe specification, and the views of the GTS information
    /// and of the pending addresses.
    open spec fn view(&self) -> Self::V {
        (self.superframe_spec, self.guaranteed_time_slot_info@, self.pending_address@)
    }
}

impl Beacon {
    /// Whether the counts fit their arrays.
    pub open spec fn wf(self) -> bool {
        self.guaranteed_time_slot_info.wf() && self.pending_address.wf()
    }

    /// Whether every field in use fits its place in the encoding.
    pub open spec fn is_valid(self) -> bool {
        &&& self.superframe_spec.is_valid()
        &&& self.guaranteed_time_slot_info.is_valid()
        &&& self.pending_address.wf()
    }

    /// The number of bytes written.
    pub open spec fn encoded_len(self) -> nat {
        2 + self.guaranteed_time_slot_info.encoded_len() + self.pending_address.encoded_len()
    }

    /// The encoding: the three parts one after the other.
    pub open spec fn bytes(self) -> Seq<u8> {
        self.superframe_spec.bytes() + self.guaranteed_time_slot_info.bytes()
            + self.pending_address.bytes()
    }

    /// Where the pending addresses start in `s`.
    pub open spec fn pending_start(s: Seq<u8>) -> int {
        2 + GuaranteedTimeSlotInformation::decoded_len(s.skip(2)) as int
    }

    /// Whether `s` holds a whole beacon.
    pub open spec fn can_decode(s: Seq<u8>) -> bool {
        &&& s.len() >= 2
        &&& GuaranteedTimeSlotInformation::can_decode(s.skip(2))
        &&& PendingAddress::can_decode(s.skip(Self::pending_start(s)))
    }

    /// The number of bytes that decoding `s` uses.
    pub open spec fn decoded_len(s: Seq<u8>) -> nat {
        (Self::pending_start(s) + PendingAddress::decoded_len(s.skip(Self::pending_start(s)))) as nat
    }

    /// Whether `v` is what decoding `s` gives: each part decoded from the
    /// bytes right after the one before.
    pub open spec fn decodes_to(s: Seq<u8>, v: Beacon) -> bool {
        &&& v.superframe_spec == SuperframeSpecification::from_bytes(s[0], s[1])
        &&& GuaranteedTimeSlotInformation::decodes_to(s.skip(2), v.guaranteed_time_slot_info)
        &&& PendingAddress::decodes_to(s.skip(Self::pending_start(s)), v.pending_address)
    }

    /// Decode beacon frame from byte  buffer
    ///
    /// # Returns
    ///
    /// Returns [`Beacon`] and the number of bytes used are returned
    ///
    /// # Errors
    ///
    /// This function returns an error, if there aren't enough bytes or
    /// dont't contain valid data. Please refer to [`DecodeError`] for details.
    pub fn decode(buf: &[u8]) -> (r: Result<(Self, usize), DecodeError>)
        ensures
            r is Err <==> !Self::can_decode(buf@),
            r is Err ==> r == Err::<(Self, usize), DecodeError>(DecodeError::NotEnoughBytes),
            r matches Ok((v, n)) ==> n == Self::decoded_len(buf@) && Self::decodes_to(buf@, v),
    {
        let mut offset = 0usize;
        let (superframe_spec, size) = match SuperframeSpecification::decode(
            &buf[offset..buf.len()],
        ) {
            Ok(decoded) => decoded,
            Err(e) => return Err(e),
        };
        assert(buf@.subrange(0, buf@.len() as int) =~= buf@);
        offset = offset + size;
        let (guaranteed_time_slot_info, size) = match GuaranteedTimeSlotInformation::decode(
            &buf[offset..buf.len()],
        ) {
            Ok(decoded) => decoded,
            Err(e) => return Err(e),
        };
        assert(buf@.subrange(offset as int, buf@.len() as int) =~= buf@.skip(2));
        offset = offset + size;
        let (pending_address, size) = match PendingAddress::decode(&buf[offset..buf.len()]) {
            Ok(decoded) => decoded,
            Err(e) => return Err(e),
        };
        assert(buf@.subrange(offset as int, buf@.len() as int) =~= buf@.skip(offset as int));
        offset = offset + size;
        Ok((Beacon { superframe_spec, guaranteed_time_slot_info, pending_address }, offset))
    }

    /// Encode beacon frame into byte buffer
    ///
    /// # Returns
    ///
    /// Returns the number of bytes written to the buffer
    ///
    /// # Panics
    ///
    /// Panics if the buffer is not long enough to hold the frame.
    pub fn encode(&self, buf: &mut [u8]) -> (size: usize)
        requires
            self.wf(),
            old(buf)@.len() >= self.encoded_len(),
        ensures
            size == self.encoded_len(),
            size == self.bytes().len(),
            final(buf)@ == written(old(buf)@, 0, self.bytes()),
    {
        let ghost start = buf@;
        assert(self.encoded_len() <= buf.len());
        proof {
            self.guaranteed_time_slot_info.lemma_bytes_len();
            self.pending_address.lemma_bytes_len();
        }
        let size = self.superframe_spec.encode(buf);
        let mut offset = size;
        let size = self.guaranteed_time_slot_info.encode_at(buf, offset);
        proof {
            lemma_written_twice(
                start,
                0,
                self.superframe_spec.bytes(),
                self.guaranteed_time_slot_info.bytes(),
            );
        }
        offset += size;
        let size = self.pending_address.encode_at(buf, offset);
        proof {
            lemma_written_twice(
                start,
                0,
                self.superframe_spec.bytes() + self.guaranteed_time_slot_info.bytes(),
                self.pending_address.bytes(),
            );
        }
        offset += size;
        offset
    }
}

/// What decoding the encoding of a beacon whose parts decode back reads.
proof fn lemma_beacon_bytes(v: Beacon, w: Beacon)
    requires
        v.wf(),
        SuperframeSpecification::from_bytes(v.superframe_spec.bytes()[0], v.superframe_spec.bytes()[1])
            == v.superframe_spec,
        GuaranteedTimeSlotInformation::can_decode(v.guaranteed_time_slot_info.bytes()),
        GuaranteedTimeSlotInformation::decoded_len(v.guaranteed_time_slot_info.bytes())
            == v.guaranteed_time_slot_info.encoded_len(),
        PendingAddress::can_decode(v.pending_address.bytes()),
        PendingAddress::decoded_len(v.pending_address.bytes()) == v.pending_address.encoded_len(),
    ensures
        Beacon::can_decode(v.bytes()),
        Beacon::decoded_len(v.bytes()) == v.bytes().len(),
        Beacon::decoded_len(v.bytes()) == v.encoded_len(),
        Beacon::decodes_to(v.bytes(), w) <==> {
            &&& w.superframe_spec == v.superframe_spec
            &&& GuaranteedTimeSlotInformation::decodes_to(
                v.guaranteed_time_slot_info.bytes(),
                w.guaranteed_time_slot_info,
            )
            &&& PendingAddress::decodes_to(v.pending_address.bytes(), w.pending_address)
        },
{
    let sb = v.superframe_spec.bytes();
    let gb = v.guaranteed_time_slot_info.bytes();
    let pb = v.pending_address.bytes();
    let b = v.bytes();
    v.guaranteed_time_slot_info.lemma_bytes_len();
    v.pending_address.lemma_bytes_len();
    assert(b.skip(2) =~= gb + pb);
    assert((gb + pb).take(gb.len() as int) =~= gb.take(gb.len() as int));
    gts_information_decode_prefix(gb, gb + pb, w.guaranteed_time_slot_info);
    assert(Beacon::pending_start(b) == 2 + gb.len());
    assert(b.skip(2 + gb.len() as int) =~= pb);
    assert(b[0] == sb[0] && b[1] == sb[1]);
}

/// Decoding the encoding of a valid beacon gives back its superframe
/// specification, its GTS permit and slots in use, and its pending addresses.
pub proof fn beacon_encode_decode(v: Beacon, w: Beacon)
    requires
        v.is_valid(),
    ensures
        Beacon::can_decode(v.bytes()),
        Beacon::decoded_len(v.bytes()) == v.bytes().len(),
        Beacon::decodes_to(v.bytes(), w) ==> w@ == v@,
{
    superframe_encode_decode(v.superframe_spec);
    gts_information_encode_decode(v.guaranteed_time_slot_info, w.guaranteed_time_slot_info);
    pending_address_encode_decode(v.pending_address, w.pending_address);
    v.guaranteed_time_slot_info.lemma_bytes_len();
    v.pending_address.lemma_bytes_len();
    lemma_beacon_bytes(v, w);
}

/// A decoded beacon is valid, and decoding its encoding gives it back whole
/// and uses as many bytes.
pub proof fn beacon_decode_encode(s: Seq<u8>, v: Beacon)
    requires
        Beacon::can_decode(s),
        Beacon::decodes_to(s, v),
    ensures
        v.is_valid(),
        Beacon::can_decode(v.bytes()),
        Beacon::decoded_len(v.bytes()) == Beacon::decoded_len(s),
        Beacon::decodes_to(v.bytes(), v),
{
    superframe_decode_encode(s);
    superframe_encode_decode(v.superframe_spec);
    gts_information_decode_encode(s.skip(2), v.guaranteed_time_slot_info);
    pending_address_decode_encode(s.skip(Beacon::pending_start(s)), v.pending_address);
    gts_information_encode_decode(v.guaranteed_time_slot_info, v.guaranteed_time_slot_info);
    pending_address_encode_decode(v.pending_address, v.pending_address);
    v.guaranteed_time_slot_info.lemma_bytes_len();
    v.pending_address.lemma_bytes_len();
    lemma_beacon_bytes(v, v);
}

/// Decoding a superframe specification reads its two bytes only: any
/// buffer of two bytes or more decodes, to what its first two bytes give,
/// using two bytes; a shorter one does not decode.
pub proof fn superframe_decode_prefix(s: Seq<u8>)
    ensures
        s.len() >= 2 ==> SuperframeSpecification::decoded(s) is Ok,
        s.len() >= 2 ==> SuperframeSpecification::decoded(s) == SuperframeSpecification::decoded(
            s.take(2),
        ),
        s.len() >= 2 ==> SuperframeSpecification::decoded(s)->Ok_0.1 == 2,
        s.len() < 2 ==> SuperframeSpecification::decoded(s) is Err,
{
}

/// Decoding a GTS descriptor reads its three bytes only: any buffer of
/// three bytes or more decodes, to what its first three bytes give, using
/// three bytes; a shorter one does not decode.
pub proof fn descriptor_decode_prefix(s: Seq<u8>)
    ensures
        s.len() >= 3 ==> GuaranteedTimeSlotDescriptor::decoded(s) is Ok,
        s.len() >= 3 ==> GuaranteedTimeSlotDescriptor::decoded(s)
            == GuaranteedTimeSlotDescriptor::decoded(s.take(3)),
        s.len() >= 3 ==> GuaranteedTimeSlotDescriptor::decoded(s)->Ok_0.1 == 3,
        s.len() < 3 ==> GuaranteedTimeSlotDescriptor::decoded(s) is Err,
{
    if s.len() >= 3 {
        assert(s.take(3).take(3) =~= s.take(3));
        lemma_descriptor_prefix(s, s.take(3));
    }
}

/// A valid descriptor's encoding, followed by any bytes, decodes to the
/// descriptor as a receive slot and uses its three bytes.
pub proof fn descriptor_decode_followed(d: GuaranteedTimeSlotDescriptor, rest: Seq<u8>)
    requires
        d.is_valid(),
    ensures
        GuaranteedTimeSlotDescriptor::decoded(d.bytes() + rest) == Ok::<
            (GuaranteedTimeSlotDescriptor, usize),
            DecodeError,
        >((GuaranteedTimeSlotDescriptor { direction: Direction::Receive, ..d }, 3)),
{
    descriptor_roundtrip(d, Seq::empty());
    let b = d.bytes() + rest;
    assert(b.take(3) =~= d.bytes());
    descriptor_decode_prefix(b);
    descriptor_decode_prefix(d.bytes());
    assert(d.bytes().take(3) =~= d.bytes());
}

/// Decoding pending addresses reads no further than the bytes it uses: bytes
/// that agree with decodable bytes on those they use decode as well, to the
/// same addresses and the same length, whatever follows.
pub proof fn pending_address_decode_prefix(s: Seq<u8>, t: Seq<u8>, v: PendingAddress)
    requires
        PendingAddress::can_decode(s),
        t.len() >= PendingAddress::decoded_len(s),
        t.take(PendingAddress::decoded_len(s) as int) == s.take(PendingAddress::decoded_len(s) as int),
    ensures
        PendingAddress::can_decode(t),
        PendingAddress::decoded_len(t) == PendingAddress::decoded_len(s),
        PendingAddress::decodes_to(t, v) == PendingAddress::decodes_to(s, v),
{
    let n = PendingAddress::decoded_len(s) as int;
    assert(t[0] == t.take(n)[0]);
    assert(s[0] == s.take(n)[0]);
    let sl = PendingAddress::short_count_of(s[0]);
    let el = PendingAddress::extended_count_of(s[0]);
    assert forall|i: int| 0 <= i < sl implies #[trigger] ShortAddress::from_bytes(t.skip(1 + 2 * i))
        == ShortAddress::from_bytes(s.skip(1 + 2 * i)) by {
        assert(t.skip(1 + 2 * i).take(2) =~= t.take(n).subrange(1 + 2 * i, 3 + 2 * i));
        assert(s.skip(1 + 2 * i).take(2) =~= s.take(n).subrange(1 + 2 * i, 3 + 2 * i));
    }
    assert forall|i: int| 0 <= i < el implies #[trigger] ExtendedAddress::from_bytes(
        t.skip(1 + 2 * sl + 8 * i),
    ) == ExtendedAddress::from_bytes(s.skip(1 + 2 * sl + 8 * i)) by {
        let k = 1 + 2 * sl + 8 * i;
        assert(t.skip(k).take(8) =~= t.take(n).subrange(k, k + 8));
        assert(s.skip(k).take(8) =~= s.take(n).subrange(k, k + 8));
    }
}

/// Decoding a beacon reads no further than the bytes it uses: bytes that
/// agree with decodable bytes on those they use decode as well, to the same
/// beacon and the same length, whatever follows.
pub proof fn beacon_decode_prefix(s: Seq<u8>, t: Seq<u8>, v: Beacon)
    requires
        Beacon::can_decode(s),
        t.len() >= Beacon::decoded_len(s),
        t.take(Beacon::decoded_len(s) as int) == s.take(Beacon::decoded_len(s) as int),
    ensures
        Beacon::can_decode(t),
        Beacon::decoded_len(t) == Beacon::decoded_len(s),
        Beacon::decodes_to(t, v) == Beacon::decodes_to(s, v),
{
    let n = Beacon::decoded_len(s) as int;
    assert(t[0] == t.take(n)[0]);
    assert(s[0] == s.take(n)[0]);
    assert(t[1] == t.take(n)[1]);
    assert(s[1] == s.take(n)[1]);
    let g = GuaranteedTimeSlotInformation::decoded_len(s.skip(2)) as int;
    assert(t.skip(2).take(g) =~= s.skip(2).take(g)) by {
        assert forall|j: int| 0 <= j < g implies t.skip(2).take(g)[j] == s.skip(2).take(g)[j] by {
            assert(t.take(n)[j + 2] == s.take(n)[j + 2]);
        }
    }
    gts_information_decode_prefix(s.skip(2), t.skip(2), v.guaranteed_time_slot_info);
    let ps = Beacon::pending_start(s);
    assert(Beacon::pending_start(t) == ps);
    let p = PendingAddress::decoded_len(s.skip(ps)) as int;
    assert(t.skip(ps).take(p) =~= s.skip(ps).take(p)) by {
        assert forall|j: int| 0 <= j < p implies t.skip(ps).take(p)[j] == s.skip(ps).take(p)[j] by {
            assert(t.take(n)[j + ps] == s.take(n)[j + ps]);
        }
    }
    pending_address_decode_prefix(s.skip(ps), t.skip(ps), v.pending_address);
}

/// A valid beacon's encoding, followed by any bytes, decodes to the beacon
/// (its superframe specification, GTS permit and slots in use, and pending
/// addresses) and uses exactly its encoding.
pub proof fn beacon_decode_followed(v: Beacon, w: Beacon, rest: Seq<u8>)
    requires
        v.is_valid(),
    ensures
        Beacon::can_decode(v.bytes() + rest),
        Beacon::decoded_len(v.bytes() + rest) == v.bytes().len(),
        Beacon::decodes_to(v.bytes() + rest, w) ==> w@ == v@,
{
    beacon_encode_decode(v, w);
    let b = v.bytes();
    let t = b + rest;
    assert(t.take(b.len() as int) =~= b.take(b.len() as int));
    beacon_decode_prefix(b, t, w);
}

/// Well-formed pending addresses' encoding, followed by any bytes, decodes
/// to the addresses in use and uses exactly the encoding.
pub proof fn pending_address_decode_followed(v: PendingAddress, w: PendingAddress, rest: Seq<u8>)
    requires
        v.wf(),
    ensures
        PendingAddress::can_decode(v.bytes() + rest),
        PendingAddress::decoded_len(v.bytes() + rest) == v.bytes().len(),
        PendingAddress::decodes_to(v.bytes() + rest, w) ==> w@ == v@,
{
    pending_address_encode_decode(v, w);
    let b = v.bytes();
    let t = b + rest;
    assert(t.take(b.len() as int) =~= b.take(b.len() as int));
    pending_address_decode_prefix(b, t, w);
}

/// A valid GTS information's encoding, followed by any bytes, decodes to its
/// permit and slots in use and uses exactly the encoding.
pub proof fn gts_information_decode_followed(
    v: GuaranteedTimeSlotInformation,
    w: GuaranteedTimeSlotInformation,
    rest: Seq<u8>,
)
    requires
        v.is_valid(),
    ensures
        GuaranteedTimeSlotInformation::can_decode(v.bytes() + rest),
        GuaranteedTimeSlotInformation::decoded_len(v.bytes() + rest) == v.bytes().len(),
        GuaranteedTimeSlotInformation::decodes_to(v.bytes() + rest, w) ==> w@ == v@,
{
    gts_information_encode_decode(v, w);
    let b = v.bytes();
    let t = b + rest;
    assert(t.take(b.len() as int) =~= b.take(b.len() as int));
    gts_information_decode_prefix(b, t, w);
}

} // verus!
