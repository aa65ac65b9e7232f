//! Addresses of message senders and receivers.

use crate::codec::{BitCodec, BitCodecAs};
use crate::de::BitUnpack;
use crate::de_as::{BitUnpackAs, unpack_part_as};
use crate::error::{Context, Error, ErrorKind, Failure};
use crate::integer::NBits;
use crate::reader::BitReader;
use crate::ser::BitPack;
use crate::ser_as::{BitPackAs, Same, pack_part_as};
use crate::writer::BitWriter;
use vstd::prelude::*;

verus! {

/// The address of a contract: the chain that it lives on and its 256-bit
/// account number. The address with chain 0 and account number 0 stands for
/// "no address".
#[derive(Debug, Clone, Copy, PartialEq, Eq)]
pub struct MsgAddress {
    pub workchain_id: i32,
    pub address: [u8; 32],
}

/// What an address holds.
pub ghost struct MsgAddressView {
    pub workchain_id: int,
    pub address: Seq<u8>,
}

impl DeepView for MsgAddress {
    type V = MsgAddressView;

    open spec fn deep_view(&self) -> MsgAddressView {
        MsgAddressView { workchain_id: self.workchain_id as int, address: self.address@ }
    }
}

impl MsgAddressView {
    /// Whether this is "no address".
    pub open spec fn is_null(self) -> bool {
        self.workchain_id == 0 && forall|i: int| 0 <= i < self.address.len() ==> self.address[i] == 0
    }

    /// The byte that stands for the chain.
    pub open spec fn chain_byte(self) -> u8 {
        if self.workchain_id >= 0 {
            self.workchain_id as u8
        } else {
            (self.workchain_id + 256) as u8
        }
    }

    /// The parts of an address that is there: no anycast, the chain, the
    /// account number.
    pub open spec fn parts(self) -> (bool, u8, Seq<u8>) {
        (false, self.chain_byte(), self.address)
    }
}

/// The chain that a byte stands for.
pub open spec fn chain_of(byte: u8) -> int {
    if byte < 128 {
        byte as int
    } else {
        byte as int - 256
    }
}

/// The strategy for the parts of an address.
pub type PartsAs = (Same, Same, [Same; 32]);

impl MsgAddress {
    /// "No address".
    pub fn null() -> (a: MsgAddress)
        ensures
            a.deep_view().is_null(),
            a.deep_view().workchain_id == 0,
            a.deep_view().address == Seq::new(32, |i: int| 0u8),
    {
        let address = [0u8; 32];
        proof {
            broadcast use vstd::array::group_array_axioms;

            assert(address == vstd::array::spec_array_fill_for_copy_type::<u8, 32>(0u8));
            assert(address@.len() == 32);
            assert(address@ =~= Seq::new(32, |i: int| 0u8));
        }
        MsgAddress { workchain_id: 0, address }
    }

    /// Whether this is "no address".
    pub fn is_null(&self) -> (b: bool)
        ensures
            b == self.deep_view().is_null(),
    {
        if self.workchain_id != 0 {
            return false;
        }
        let mut i: usize = 0;
        while i < 32
            invariant
                i <= 32,
                forall|j: int| 0 <= j < i ==> self.address@[j] == 0,
            decreases 32 - i,
        {
            if self.address[i] != 0 {
                assert(self.deep_view().address[i as int] != 0);
                return false;
            }
            i = i + 1;
        }
        true
    }
}

/// An address: two bits that say whether it is there, 00 for no and 10 for
/// yes; after 10 one 0 bit, the chain in 8 bits and the account number in
/// 256 bits.
impl BitPack for MsgAddress {
    open spec fn packable(v: MsgAddressView) -> bool {
        v.address.len() == 32 && (v.is_null() || -128 <= v.workchain_id <= 127)
    }

    open spec fn encoding(v: MsgAddressView) -> Seq<bool> {
        if v.is_null() {
            seq![false, false]
        } else {
            seq![true, false] + <PartsAs as BitPackAs<(bool, u8, [u8; 32])>>::encoding_as(v.parts())
        }
    }

    open spec fn failure(v: MsgAddressView, room: nat) -> Failure {
        if v.is_null() {
            <NBits<2> as BitPackAs<u8>>::failure_as(0u8, room).at(Context::Field("tag"))
        } else if !(-128 <= v.workchain_id <= 127) {
            Failure::of(ErrorKind::Custom)
        } else if room < 2 {
            <NBits<2> as BitPackAs<u8>>::failure_as(2u8, room).at(Context::Field("tag"))
        } else {
            <PartsAs as BitPackAs<(bool, u8, [u8; 32])>>::failure_as(
                v.parts(),
                (room - 2) as nat,
            ).at(Context::Field("std"))
        }
    }

    fn pack<W: BitWriter>(&self, writer: &mut W) -> (r: Result<(), Error>) {
        let ghost _own = (
            Self::packable(self.deep_view()),
            Self::encoding(self.deep_view()),
            Self::failure(self.deep_view(), writer.room()),
        );
        let ghost start = writer.written();
        if self.is_null() {
            proof {
                crate::integer::lemma_uint_bits_len(0, 2);
                reveal_with_fuel(crate::integer::uint_bits, 3);
                assert(crate::integer::uint_bits(0, 2) =~= seq![false, false]);
                vstd::arithmetic::power2::lemma2_to64();
            }
            proof {
                assert(start.is_prefix_of(start));
            }
            return pack_part_as::<u8, NBits<2>, W>(
                &0u8,
                writer,
                Context::Field("tag"),
                Ghost(start),
            );
        }
        if self.workchain_id < -128 || self.workchain_id > 127 {
            return Err(Error::new(ErrorKind::Custom));
        }
        let chain: u8 = if self.workchain_id >= 0 {
            self.workchain_id as u8
        } else {
            (self.workchain_id + 256) as u8
        };
        proof {
            reveal_with_fuel(crate::integer::uint_bits, 3);
            assert(crate::integer::uint_bits(2, 2) =~= seq![true, false]);
            vstd::arithmetic::power2::lemma2_to64();
        }
        pack_part_as::<u8, NBits<2>, W>(&2u8, writer, Context::Field("tag"), Ghost(start))?;
        let parts = (false, chain, self.address);
        proof {
            assert(parts.deep_view().2 =~= self.deep_view().address);
            assert(parts.deep_view() == self.deep_view().parts());
            assert(crate::sequence::all_packable_as::<u8, Same>(self.deep_view().address));
        }
        pack_part_as::<(bool, u8, [u8; 32]), PartsAs, W>(
            &parts,
            writer,
            Context::Field("std"),
            Ghost(start),
        )?;
        proof {
            let bits = <PartsAs as BitPackAs<(bool, u8, [u8; 32])>>::encoding_as(
                self.deep_view().parts(),
            );
            assert(start + seq![true, false] + bits =~= start + (seq![true, false] + bits));
        }
        Ok(())
    }
}

impl BitUnpack for MsgAddress {
    open spec fn decode(bits: Seq<bool>) -> Result<(MsgAddressView, nat), Failure> {
        match <NBits<2> as BitUnpackAs<u8>>::decode_as(bits) {
            Err(e) => Err(e.at(Context::Field("tag"))),
            Ok((tag, _)) => if tag == 0 {
                Ok((MsgAddressView { workchain_id: 0, address: Seq::new(32, |i: int| 0u8) }, 2))
            } else if tag == 2 {
                match <PartsAs as BitUnpackAs<(bool, u8, [u8; 32])>>::decode_as(bits.skip(2)) {
                    Err(e) => Err(e.at(Context::Field("std"))),
                    Ok(((anycast, chain, address), n)) => if anycast {
                        Err(Failure::of(ErrorKind::Custom))
                    } else {
                        Ok((MsgAddressView { workchain_id: chain_of(chain), address }, n + 2))
                    },
                }
            } else {
                Err(Failure::of(ErrorKind::Custom))
            },
        }
    }

    proof fn lemma_decode_within(bits: Seq<bool>) {
        let _own = Self::decode(bits);
        if bits.len() >= 2 {
            <PartsAs as BitUnpackAs<(bool, u8, [u8; 32])>>::lemma_decode_as_within(bits.skip(2));
        }
    }

    fn unpack<R: BitReader>(reader: &mut R) -> (r: Result<Self, Error>) {
        let ghost _own = Self::decode(reader.remaining());
        let ghost all = reader.remaining();
        proof {
            assert(all.skip(0) =~= all);
        }
        let tag = unpack_part_as::<u8, NBits<2>, R>(
            reader,
            Context::Field("tag"),
            Ghost(all),
            Ghost(0),
        )?;
        if tag == 0 {
            return Ok(MsgAddress::null());
        }
        if tag != 2 {
            return Err(Error::new(ErrorKind::Custom));
        }
        let (anycast, chain, address) = unpack_part_as::<(bool, u8, [u8; 32]), PartsAs, R>(
            reader,
            Context::Field("std"),
            Ghost(all),
            Ghost(2),
        )?;
        if anycast {
            return Err(Error::new(ErrorKind::Custom));
        }
        let workchain_id: i32 = if chain < 128 {
            chain as i32
        } else {
            chain as i32 - 256
        };
        let a = MsgAddress { workchain_id, address };
        proof {
            assert(a.deep_view().address =~= address.deep_view());
        }
        Ok(a)
    }
}

impl BitCodec for MsgAddress {
    proof fn lemma_round_trip(v: MsgAddressView, rest: Seq<bool>) {
        let _own = (Self::packable(v), Self::encoding(v), Self::decode(rest));
        reveal_with_fuel(crate::integer::uint_bits, 3);
        reveal_with_fuel(crate::integer::bits_uint, 3);
        vstd::arithmetic::power2::lemma2_to64();
        if v.is_null() {
            let bits = seq![false, false] + rest;
            assert(bits.take(2) =~= seq![false, false]);
            assert(seq![false, false].drop_last() =~= seq![false]);
            assert(seq![false].drop_last() =~= Seq::<bool>::empty());
            assert(crate::integer::bits_uint(seq![false, false]) == 0);
            assert(v.address =~= Seq::new(32, |i: int| 0u8));
        } else {
            let parts = <PartsAs as BitPackAs<(bool, u8, [u8; 32])>>::encoding_as(v.parts());
            let bits = seq![true, false] + parts + rest;
            assert(bits.take(2) =~= seq![true, false]);
            assert(seq![true, false].drop_last() =~= seq![true]);
            assert(seq![true].drop_last() =~= Seq::<bool>::empty());
            assert(crate::integer::bits_uint(seq![true, false]) == 2);
            assert(bits.skip(2) =~= parts + rest);
            assert(crate::sequence::all_packable_as::<u8, Same>(v.address));
            <PartsAs as BitCodecAs<(bool, u8, [u8; 32])>>::lemma_round_trip_as(v.parts(), rest);
        }
    }
}

} // verus!
