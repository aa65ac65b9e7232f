use tlbits::boc::BagOfCells;
use tlbits::boc_wire::BagOfCellsArgs;
use tlbits::cell::Cell;
use tlbits::de::unpack_fully;
use tlbits::ser::pack_with;

/// The code of the wallet, version 4 revision 2: a bag of cells in base64.
const WALLET_V4R2_CODE: &str = "te6cckECFAEAAtQAART/APSkE/S88sgLAQIBIAIDAgFIBAUE+PKDCNcYINMf0x/THwL4I7vyZO1E0NMf0x/T//QE\
     0VFDuvKhUVG68qIF+QFUEGT5EPKj+AAkpMjLH1JAyx9SMMv/UhD0AMntVPgPAdMHIcAAn2xRkyDXSpbTB9QC+wDo\
     MOAhwAHjACHAAuMAAcADkTDjDQOkyMsfEssfy/8QERITAubQAdDTAyFxsJJfBOAi10nBIJJfBOAC0x8hghBwbHVn\
     vSKCEGRzdHK9sJJfBeAD+kAwIPpEAcjKB8v/ydDtRNCBAUDXIfQEMFyBAQj0Cm+hMbOSXwfgBdM/yCWCEHBsdWe6\
     kjgw4w0DghBkc3RyupJfBuMNBgcCASAICQB4AfoA9AQw+CdvIjBQCqEhvvLgUIIQcGx1Z4MesXCAGFAEywUmzxZY\
     +gIZ9ADLaRfLH1Jgyz8gyYBA+wAGAIpQBIEBCPRZMO1E0IEBQNcgyAHPFvQAye1UAXKwjiOCEGRzdHKDHrFwgBhQ\
     BcsFUAPPFiP6AhPLassfyz/JgED7AJJfA+ICASAKCwBZvSQrb2omhAgKBrkPoCGEcNQICEekk30pkQzmkD6f+YN4\
     EoAbeBAUiYcVnzGEAgFYDA0AEbjJftRNDXCx+AA9sp37UTQgQFA1yH0BDACyMoHy//J0AGBAQj0Cm+hMYAIBIA4P\
     ABmtznaiaEAga5Drhf/AABmvHfaiaEAQa5DrhY/AAG7SB/oA1NQi+QAFyMoHFcv/ydB3dIAYyMsFywIizxZQBfoC\
     FMtrEszMyXP7AMhAFIEBCPRR8qcCAHCBAQjXGPoA0z/IVCBHgQEI9FHyp4IQbm90ZXB0gBjIywXLAlAGzxZQBPoC\
     FMtqEssfyz/Jc/sAAgBsgQEI1xj6ANM/MFIkgQEI9Fnyp4IQZHN0cnB0gBjIywXLAlAFzxZQA/oCE8tqyx8Syz/J\
     c/sAAAr0AMntVGliJeU=";

fn hex_of(bytes: &[u8]) -> String {
    bytes.iter().map(|b| format!("{b:02x}")).collect()
}

#[test]
fn check_code() {
    let code = BagOfCells::parse_base64(WALLET_V4R2_CODE)
        .unwrap()
        .single_root()
        .expect("code BoC must be single root")
        .clone();
    let packed = pack_with(
        BagOfCells::from_root(code.clone()),
        BagOfCellsArgs { has_idx: false, has_crc32c: true },
    )
    .unwrap();

    let unpacked: BagOfCells = unpack_fully(&packed).unwrap();

    let got: Cell = unpacked.single_root().unwrap().parse_fully().unwrap();
    assert_eq!(&got, code.as_ref());
}

#[test]
fn code_has_the_known_hash() {
    let bag = BagOfCells::parse_base64(WALLET_V4R2_CODE).unwrap();
    let code = bag.single_root().unwrap();
    assert_eq!(
        hex_of(&code.hash().unwrap()),
        "feb5ff6820e2ff0d9483e7e0d62c817d846789fb4ae580c878866d959dabd5c0"
    );
    // laid out again, the code is read back as the same cell
    let args = BagOfCellsArgs { has_idx: true, has_crc32c: true };
    let again = BagOfCells::parse_base64(&bag.serialize_base64(args).unwrap()).unwrap();
    assert_eq!(again.single_root().unwrap(), code);
    assert_eq!(code.depth().unwrap(), 7);
}
