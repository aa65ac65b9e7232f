use std::sync::Arc;
use tlbits::address::MsgAddress;
use tlbits::builder::CellBuilder;
use tlbits::cell::Cell;
use tlbits::cell_ser::CellSerializeExt;
use tlbits::currency::{CurrencyCollection, Grams};
use tlbits::de::unpack_fully;
use tlbits::de_as::unpack_fully_as;
use tlbits::envelope::Message;
use tlbits::error::ErrorKind;
use tlbits::message::{CommonMsgInfo, ExternalInMsgInfo, ExternalOutMsgInfo, InternalMsgInfo};
use tlbits::ser::pack;
use tlbits::ser_as::pack_as;
use tlbits::state_init::{StateInit, TickTock};
use tlbits::wallet::{WalletOpSendMessage, WalletV4R2Data, WalletV4R2Op, PUBLIC_KEY_LENGTH, V4R2};

fn internal() -> InternalMsgInfo {
    InternalMsgInfo {
        ihr_disabled: true,
        bounce: true,
        bounced: false,
        src: MsgAddress::null(),
        dst: MsgAddress::null(),
        value: CurrencyCollection::zero(),
        ihr_fee: 0,
        fwd_fee: 0,
        created_lt: 0,
        created_at: None,
    }
}

#[test]
fn message_serde() {
    let msg = Message::<(), (), ()> {
        info: CommonMsgInfo::Internal(internal()),
        init: None,
        body: (),
    };

    let cell = msg.to_cell().unwrap();
    let got: Message<(), (), ()> = cell.parse_fully().unwrap();

    assert_eq!(got, msg);
}

#[test]
fn internal_msg_info_serde() {
    let info = CommonMsgInfo::Internal(internal());

    let cell = info.to_cell().unwrap();
    let got: CommonMsgInfo = cell.parse_fully().unwrap();

    assert_eq!(got, info);
}

#[test]
fn external_in_msg_info_serde() {
    let info = CommonMsgInfo::ExternalIn(ExternalInMsgInfo {
        src: MsgAddress::null(),
        dst: MsgAddress::null(),
        import_fee: 0,
    });

    let cell = info.to_cell().unwrap();
    let got: CommonMsgInfo = cell.parse_fully().unwrap();

    assert_eq!(got, info);
}

#[test]
fn external_out_msg_info_serde() {
    let info = CommonMsgInfo::ExternalOut(ExternalOutMsgInfo {
        src: MsgAddress::null(),
        dst: MsgAddress::null(),
        created_lt: 0,
        created_at: 0,
    });

    let cell = info.to_cell().unwrap();
    let got: CommonMsgInfo = cell.parse_fully().unwrap();

    assert_eq!(got, info);
}

#[test]
fn address_layout() {
    assert_eq!(pack(MsgAddress::null()).unwrap().to_bools(), vec![false, false]);
    let mut address = [0u8; 32];
    address[31] = 1;
    let a = MsgAddress { workchain_id: -1, address };
    let packed = pack(a).unwrap();
    assert_eq!(packed.len(), 2 + 1 + 8 + 256);
    let bits = packed.to_bools();
    assert_eq!(&bits[..3], &[true, false, false]);
    assert!(bits[3..11].iter().all(|b| *b));
    assert!(bits[11..266].iter().all(|b| !*b));
    assert!(bits[266]);
    assert_eq!(unpack_fully::<MsgAddress>(&packed).unwrap(), a);

    let far = MsgAddress { workchain_id: 128, address };
    assert_eq!(pack(far).unwrap_err().kind, ErrorKind::Custom);
}

#[test]
fn grams_are_written_in_as_few_bytes_as_they_take() {
    assert_eq!(pack_as::<u128, Grams>(0).unwrap().to_bools(), vec![false; 4]);
    let one = pack_as::<u128, Grams>(1).unwrap();
    assert_eq!(
        one.to_bools(),
        vec![
            false, false, false, true, false, false, false, false, false, false, false, true
        ]
    );
    let large = (1u128 << 120) - 1;
    let packed = pack_as::<u128, Grams>(large).unwrap();
    assert_eq!(packed.len(), 4 + 120);
    assert_eq!(unpack_fully_as::<u128, Grams>(&packed).unwrap(), large);
    let amount = 1_000_000_000u128;
    let packed = pack_as::<u128, Grams>(amount).unwrap();
    assert_eq!(packed.len(), 4 + 32);
    assert_eq!(unpack_fully_as::<u128, Grams>(&packed).unwrap(), amount);
    assert_eq!(pack_as::<u128, Grams>(1u128 << 120).unwrap_err().kind, ErrorKind::Custom);
}

#[test]
fn internal_info_cannot_be_written_with_a_time_of_zero() {
    let mut info = internal();
    info.created_at = Some(0);
    assert_eq!(info.to_cell().unwrap_err().kind, ErrorKind::Custom);
    assert_eq!(pack(info).unwrap_err().kind, ErrorKind::Custom);
    info.created_at = None;
    let cell = info.to_cell().unwrap();
    let got: InternalMsgInfo = cell.parse_fully().unwrap();
    assert_eq!(got, info);
    info.created_at = Some(1_700_000_000);
    info.ihr_fee = 12345;
    info.value = CurrencyCollection { grams: 5_000_000_000 };
    let cell = info.to_cell().unwrap();
    let got: InternalMsgInfo = cell.parse_fully().unwrap();
    assert_eq!(got, info);
}

#[test]
fn empty_body_is_stored_in_place_and_others_by_reference() {
    let info = CommonMsgInfo::ExternalIn(ExternalInMsgInfo {
        src: MsgAddress::null(),
        dst: MsgAddress::null(),
        import_fee: 0,
    });
    let empty = Message::<Cell, Cell, Cell> { info, init: None, body: Cell::new() };
    let cell = empty.to_cell().unwrap();
    assert!(cell.reference(0).is_none());
    // tag 10, two empty addresses, no fee, no initial state, body in place
    assert_eq!(cell.bits_len(), 2 + 2 + 2 + 4 + 1 + 1);
    assert_eq!(cell.data.get(cell.bits_len() - 1), Some(false));
    assert_eq!(cell.parse_fully::<Message<Cell, Cell, Cell>>().unwrap(), empty);

    let mut b = CellBuilder::new();
    b.pack(0xABCDu16).unwrap();
    let body = b.into_cell();
    let full = Message::<Cell, Cell, Cell> { info, init: None, body: body.clone() };
    let cell = full.to_cell().unwrap();
    assert_eq!(cell.data.get(cell.bits_len() - 1), Some(true));
    assert_eq!(**cell.reference(0).unwrap(), body);
    assert_eq!(cell.parse_fully::<Message<Cell, Cell, Cell>>().unwrap(), full);
}

#[test]
fn message_with_an_initial_state() {
    let mut code = CellBuilder::new();
    code.pack(0xFFu8).unwrap();
    let code = code.into_cell();
    let init = StateInit::<Cell, Cell> {
        split_depth: Some(3),
        special: Some(TickTock { tick: true, tock: false }),
        code: Some(code.clone()),
        data: None,
    };
    let msg = Message::<(), Cell, Cell> {
        info: CommonMsgInfo::Internal(internal()),
        init: Some(init),
        body: (),
    };
    let cell = msg.to_cell().unwrap();
    let state = cell.reference(0).unwrap();
    // depth present (1 + 5 bits), special present (1 + 2 bits), code, no data, no libraries
    assert_eq!(
        state.data.to_bools(),
        vec![true, false, false, false, true, true, true, true, false, true, false, false]
    );
    assert_eq!(**state.reference(0).unwrap(), code);
    let got: Message<(), Cell, Cell> = cell.parse_fully().unwrap();
    assert_eq!(got, msg);
    let normal = msg.normalize().unwrap();
    assert_eq!(normal.body, Cell::new());
    assert_eq!(normal.to_cell().unwrap(), cell);

    let deep = StateInit::<Cell, Cell> { split_depth: Some(32), special: None, code: None, data: None };
    assert_eq!(deep.to_cell().unwrap_err().kind, ErrorKind::Custom);
}

#[test]
fn wallet_data_round_trip() {
    assert_eq!(PUBLIC_KEY_LENGTH, nacl::sign::PUBLIC_KEY_LENGTH);
    let mut pubkey = [0u8; 32];
    pubkey[0] = 0x80;
    pubkey[31] = 0x01;
    let data = V4R2::init_data(698983191, pubkey);
    assert_eq!(data.seqno, 0);
    let cell = data.to_cell().unwrap();
    assert_eq!(cell.bits_len(), 32 + 32 + 256 + 1);
    assert_eq!(cell.data.get(64), Some(true));
    assert_eq!(cell.data.get(320), Some(false));
    assert_eq!(cell.parse_fully::<WalletV4R2Data>().unwrap(), data);

    let mut b = CellBuilder::new();
    b.pack((0u32, 0u32)).unwrap();
    b.pack(pubkey).unwrap();
    b.pack(true).unwrap();
    let err = b.into_cell().parse_fully::<WalletV4R2Data>().unwrap_err();
    assert_eq!(err.kind, ErrorKind::Custom);
}

#[test]
fn wallet_message_layout() {
    let info = CommonMsgInfo::Internal(internal());
    let order = |mode: u8| WalletOpSendMessage {
        mode,
        message: Message { info, init: None, body: Cell::new() },
    };
    let body = V4R2::create_external_body(7, 1_700_000_000, 3, vec![order(3), order(1)]);
    assert!(matches!(&body.op, WalletV4R2Op::Send(msgs) if msgs.len() == 2));
    let cell = body.to_cell().unwrap();
    // three numbers of 32 bits, the op in 8 bits, and a mode of 8 bits for each order
    assert_eq!(cell.bits_len(), 96 + 8 + 8 + 8);
    let sent = cell.reference(0).unwrap();
    assert_eq!(
        sent.parse_fully::<Message<Cell, Cell, Cell>>().unwrap(),
        order(3).message
    );
    assert!(cell.reference(1).is_some());
    assert!(cell.reference(2).is_none());
    let bits = cell.data.to_bools();
    assert_eq!(&bits[104..112], &[false, false, false, false, false, false, true, true]);

    let many = V4R2::create_external_body(7, 0, 0, (0..5).map(|_| order(0)).collect());
    let err = many.to_cell().unwrap_err();
    assert_eq!(err.kind, ErrorKind::Capacity);
    let shared: Arc<Cell> = Arc::new(cell);
    assert!(shared.reference(0).is_some());
}
