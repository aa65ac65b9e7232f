//! Codecs for a data model made of cells.
//!
//! A *cell* holds up to 1023 bits of data and up to four references to
//! other cells. Values are written into cells and read back from them, and
//! a graph of cells is laid out as one byte string, a *bag of cells*.
//!
//! The crate has four layers, each built on the one before:
//!
//! - **Bits.** [`writer::BitWriter`] and [`reader::BitReader`] take and give
//!   single bits; [`writer::BitCounter`], [`writer::LimitWriter`] and
//!   [`writer::Tee`] count, limit and duplicate what is written.
//!   [`ser::BitPack`] and [`de::BitUnpack`] give a type its encoding.
//! - **Strategies.** [`ser_as::BitPackAs`] and [`de_as::BitUnpackAs`] give a
//!   type as many encodings as there are strategies: a strategy is a type
//!   that is only named, never built. Strategies for parts make strategies
//!   for options, for one of two, for tuples, arrays and pointers.
//! - **Cells.** [`builder::CellBuilder`] appends bits and references until
//!   a [`cell::Cell`] is finished; [`parser::CellParser`] reads one.
//!   [`cell_ser::CellSerialize`] and [`cell_de::CellDeserialize`], with
//!   their strategies, store values in cells.
//! - **Bags.** [`boc::BagOfCells`] lays a graph of cells out as bytes and
//!   reads it back: equal cells are laid out once, every cell before the
//!   cells that it refers to.
//!
//! On top of these stand the messages of [`message`] and [`envelope`] and
//! the wallet of [`wallet`].
//!
//! # Contracts
//!
//! Every type has a mathematical picture of its values, its deep view, and
//! every codec says in specification functions over these pictures which
//! bits stand for a value and which value bits stand for. The executable
//! functions are proved to write and read exactly that. That what is
//! written is read back is proved once for every codec, in [`codec`],
//! [`cell_codec`], [`boc_laws`] and [`laws`].
//!
//! # Errors
//!
//! Every failure is an [`error::Error`]: one of six kinds, and the trail of
//! places that it passed on its way out, the innermost first. Nothing
//! panics. Which error comes out is part of every contract, kind and trail:
//! a reader fails with the failure that the specification function of the
//! codec gives, and a writer with that of the first part that cannot be
//! written or does not fit, each marked with the place of the part. Only a
//! writer that marks the errors of another, as [`writer::Tee`] does, puts
//! its own marks in front of that trail. A store that fails leaves the
//! builder as it was.
//!
//! # The bodies of trait implementations
//!
//! An implementation of a codec trait starts by naming its own
//! specification functions, in a ghost binding called `_own`. Verus proves
//! a body against the definitions that it has brought in by then. The
//! contract that a trait declares names these functions through `Self`
//! only, and the binding makes sure that the definitions of the
//! implementation at hand are among them.

pub mod address;
pub mod boc;
pub mod boc_bits;
pub mod boc_de;
pub mod boc_graph;
pub mod boc_laws;
pub mod boc_ser;
pub mod boc_wire;
pub mod builder;
pub mod bytes;
pub mod cell;
pub mod cell_codec;
pub mod cell_de;
pub mod cell_either;
pub mod cell_ser;
pub mod codec;
pub mod crc32c;
pub mod currency;
pub mod de;
pub mod de_as;
pub mod either;
pub mod envelope;
pub mod error;
pub mod hash;
pub mod integer;
pub mod laws;
pub mod message;
pub mod parser;
pub mod reader;
pub mod reader_ext;
pub mod sequence;
pub mod ser;
pub mod ser_as;
pub mod state_init;
pub mod storage;
pub mod text;
pub mod tuples;
pub mod tuples_as;
pub mod wallet;
pub mod writer;
pub mod writer_ext;
