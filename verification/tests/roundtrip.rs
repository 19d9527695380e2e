use ieee802154::mac::beacon::{
    Beacon, BeaconOrder, Direction, GuaranteedTimeSlotDescriptor, GuaranteedTimeSlotInformation,
    PendingAddress, SuperframeOrder, SuperframeSpecification,
};
use ieee802154::mac::{DecodeError, ExtendedAddress, ShortAddress};

fn sample_superframe() -> SuperframeSpecification {
    SuperframeSpecification {
        beacon_order: BeaconOrder::BeaconOrder(7),
        superframe_order: SuperframeOrder::SuperframeOrder(14),
        final_cap_slot: 9,
        battery_life_extension: true,
        pan_coordinator: false,
        association_permit: true,
    }
}

fn sample_gts() -> GuaranteedTimeSlotInformation {
    let mut slots = [GuaranteedTimeSlotDescriptor::new(); 7];
    slots[0] = GuaranteedTimeSlotDescriptor {
        short_address: ShortAddress(0x0102),
        starting_slot: 2,
        length: 3,
        direction: Direction::Receive,
    };
    slots[1] = GuaranteedTimeSlotDescriptor {
        short_address: ShortAddress(0xa0b0),
        starting_slot: 15,
        length: 15,
        direction: Direction::Transmit,
    };
    slots[2] = GuaranteedTimeSlotDescriptor {
        short_address: ShortAddress(0xbeef),
        starting_slot: 0,
        length: 7,
        direction: Direction::Transmit,
    };
    GuaranteedTimeSlotInformation {
        permit: false,
        slot_count: 3,
        slots,
    }
}

fn sample_pending() -> PendingAddress {
    let mut short_addresses = [ShortAddress::broadcast(); 7];
    short_addresses[0] = ShortAddress(0x1122);
    short_addresses[1] = ShortAddress(0x3344);
    let mut extended_addresses = [ExtendedAddress::broadcast(); 7];
    extended_addresses[0] = ExtendedAddress(0x0807060504030201);
    PendingAddress {
        short_address_count: 2,
        short_addresses,
        extended_address_count: 1,
        extended_addresses,
    }
}

#[test]
fn order_conversions() {
    assert_eq!(BeaconOrder::from(0), BeaconOrder::BeaconOrder(0));
    assert_eq!(BeaconOrder::from(14), BeaconOrder::BeaconOrder(14));
    assert_eq!(BeaconOrder::from(15), BeaconOrder::OnDemand);
    assert_eq!(BeaconOrder::from(200), BeaconOrder::OnDemand);
    assert_eq!(u8::from(BeaconOrder::OnDemand), 15);
    assert_eq!(u8::from(BeaconOrder::BeaconOrder(3)), 3);
    assert_eq!(SuperframeOrder::from(9), SuperframeOrder::SuperframeOrder(9));
    assert_eq!(SuperframeOrder::from(15), SuperframeOrder::Inactive);
    assert_eq!(u8::from(SuperframeOrder::Inactive), 15);
    assert_eq!(u8::from(SuperframeOrder::SuperframeOrder(11)), 11);
    for v in 0..=15u8 {
        assert_eq!(u8::from(BeaconOrder::from(v)), v);
        assert_eq!(u8::from(SuperframeOrder::from(v)), v);
    }
}

#[test]
fn short_address_bytes() {
    let mut buf = [0u8; 3];
    assert_eq!(ShortAddress(0xabcd).encode(&mut buf), 2);
    assert_eq!(buf, [0xcd, 0xab, 0x00]);
    assert_eq!(ShortAddress::decode(&buf).unwrap(), (ShortAddress(0xabcd), 2));
    assert_eq!(ShortAddress::decode(&[0x01]), Err(DecodeError::NotEnoughBytes));
    assert_eq!(ShortAddress::broadcast(), ShortAddress(0xffff));
}

#[test]
fn extended_address_bytes() {
    let mut buf = [0u8; 8];
    assert_eq!(ExtendedAddress(0x0123456789abcdef).encode(&mut buf), 8);
    assert_eq!(buf, [0xef, 0xcd, 0xab, 0x89, 0x67, 0x45, 0x23, 0x01]);
    assert_eq!(
        ExtendedAddress::decode(&buf).unwrap(),
        (ExtendedAddress(0x0123456789abcdef), 8)
    );
    assert_eq!(
        ExtendedAddress::decode(&buf[..7]),
        Err(DecodeError::NotEnoughBytes)
    );
    assert_eq!(
        ExtendedAddress::broadcast(),
        ExtendedAddress(0xffff_ffff_ffff_ffff)
    );
}

#[test]
fn superframe_roundtrip() {
    let v = sample_superframe();
    let mut buf = [0xaau8; 4];
    assert_eq!(v.encode(&mut buf), 2);
    assert_eq!(buf, [0xe7, 0x99, 0xaa, 0xaa]);
    assert_eq!(SuperframeSpecification::decode(&buf).unwrap(), (v, 2));
}

#[test]
fn superframe_reserved_bit_cleared() {
    let (v, n) = SuperframeSpecification::decode(&[0x21, 0xff]).unwrap();
    assert_eq!(n, 2);
    let mut buf = [0u8; 2];
    v.encode(&mut buf);
    assert_eq!(buf, [0x21, 0xdf]);
}

#[test]
fn superframe_too_short() {
    assert_eq!(
        SuperframeSpecification::decode(&[0x12]),
        Err(DecodeError::NotEnoughBytes)
    );
    assert_eq!(
        SuperframeSpecification::decode(&[]),
        Err(DecodeError::NotEnoughBytes)
    );
}

#[test]
fn superframe_out_of_range_order() {
    let v = SuperframeSpecification {
        beacon_order: BeaconOrder::BeaconOrder(20),
        superframe_order: SuperframeOrder::Inactive,
        final_cap_slot: 0x1f,
        battery_life_extension: false,
        pan_coordinator: false,
        association_permit: false,
    };
    let mut buf = [0u8; 2];
    v.encode(&mut buf);
    assert_eq!(buf, [0xf4, 0x0f]);
}

#[test]
fn descriptor_roundtrip() {
    assert_eq!(
        GuaranteedTimeSlotDescriptor::new(),
        GuaranteedTimeSlotDescriptor {
            short_address: ShortAddress(0xffff),
            starting_slot: 0,
            length: 0,
            direction: Direction::Receive,
        }
    );
    let d = GuaranteedTimeSlotDescriptor {
        short_address: ShortAddress(0x1234),
        starting_slot: 5,
        length: 9,
        direction: Direction::Transmit,
    };
    let mut buf = [0u8; 3];
    assert_eq!(d.encode(&mut buf), 3);
    assert_eq!(buf, [0x34, 0x12, 0x95]);
    let (e, n) = GuaranteedTimeSlotDescriptor::decode(&buf).unwrap();
    assert_eq!(n, 3);
    assert_eq!(
        e,
        GuaranteedTimeSlotDescriptor {
            direction: Direction::Receive,
            ..d
        }
    );
    assert_eq!(
        GuaranteedTimeSlotDescriptor::decode(&buf[..2]),
        Err(DecodeError::NotEnoughBytes)
    );
}

#[test]
fn gts_information_roundtrip() {
    let v = sample_gts();
    let mut buf = [0u8; 16];
    let n = v.encode(&mut buf);
    assert_eq!(n, 11);
    assert_eq!(
        buf[..n],
        [0x03, 0x06, 0x02, 0x01, 0x32, 0xb0, 0xa0, 0xff, 0xef, 0xbe, 0x70]
    );
    let (w, m) = GuaranteedTimeSlotInformation::decode(&buf).unwrap();
    assert_eq!(m, 11);
    assert_eq!(w.permit, v.permit);
    assert_eq!(w.slots(), v.slots());
    assert_eq!(w, v);
}

#[test]
fn gts_information_empty() {
    let v = GuaranteedTimeSlotInformation::new();
    assert_eq!(v.permit, false);
    assert_eq!(v.slot_count, 0);
    let mut buf = [0x55u8; 2];
    assert_eq!(v.encode(&mut buf), 1);
    assert_eq!(buf, [0x00, 0x55]);
    let (w, n) = GuaranteedTimeSlotInformation::decode(&[0x80]).unwrap();
    assert_eq!(n, 1);
    assert_eq!(w.permit, true);
    assert_eq!(w.slots().len(), 0);
}

#[test]
fn gts_information_too_short() {
    assert_eq!(
        GuaranteedTimeSlotInformation::decode(&[]),
        Err(DecodeError::NotEnoughBytes)
    );
    assert_eq!(
        GuaranteedTimeSlotInformation::decode(&[0x01, 0x00, 0x34, 0x12]),
        Err(DecodeError::NotEnoughBytes)
    );
}

#[test]
fn pending_address_roundtrip() {
    let v = sample_pending();
    let mut buf = [0u8; 20];
    let n = v.encode(&mut buf);
    assert_eq!(n, 13);
    assert_eq!(
        buf[..n],
        [0x12, 0x22, 0x11, 0x44, 0x33, 0x01, 0x02, 0x03, 0x04, 0x05, 0x06, 0x07, 0x08]
    );
    let (w, m) = PendingAddress::decode(&buf).unwrap();
    assert_eq!(m, 13);
    assert_eq!(w.short_addresses(), v.short_addresses());
    assert_eq!(w.extended_addresses(), v.extended_addresses());
}

#[test]
fn pending_address_empty_and_too_short() {
    let v = PendingAddress::new();
    assert_eq!(v.short_addresses().len(), 0);
    assert_eq!(v.extended_addresses().len(), 0);
    assert_eq!(
        PendingAddress::decode(&[]),
        Err(DecodeError::NotEnoughBytes)
    );
    assert_eq!(
        PendingAddress::decode(&[0x11, 0x00, 0x00, 0x00]),
        Err(DecodeError::NotEnoughBytes)
    );
}

#[test]
fn beacon_roundtrip() {
    let b = Beacon {
        superframe_spec: sample_superframe(),
        guaranteed_time_slot_info: sample_gts(),
        pending_address: sample_pending(),
    };
    let mut buf = [0u8; 64];
    let n = b.encode(&mut buf);
    assert_eq!(n, 2 + 11 + 13);
    let (c, m) = Beacon::decode(&buf).unwrap();
    assert_eq!(m, n);
    assert_eq!(c.superframe_spec, b.superframe_spec);
    assert_eq!(c.guaranteed_time_slot_info, b.guaranteed_time_slot_info);
    assert_eq!(
        c.pending_address.short_addresses(),
        b.pending_address.short_addresses()
    );
    assert_eq!(
        c.pending_address.extended_addresses(),
        b.pending_address.extended_addresses()
    );
    let mut again = [0u8; 64];
    assert_eq!(c.encode(&mut again), n);
    assert_eq!(again[..n], buf[..n]);
}

#[test]
fn beacon_too_short() {
    assert_eq!(Beacon::decode(&[0xff]), Err(DecodeError::NotEnoughBytes));
    assert_eq!(
        Beacon::decode(&[0xff, 0x0f, 0x00]),
        Err(DecodeError::NotEnoughBytes)
    );
    assert_eq!(
        Beacon::decode(&[0xff, 0x0f, 0x01, 0x00, 0x34, 0x12, 0x11, 0x01]),
        Err(DecodeError::NotEnoughBytes)
    );
}
