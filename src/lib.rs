//! Read and write Vorbis comment metadata: the tag set, its binary block,
//! and the packet-level splice that swaps that block inside a stream.

pub mod codec;
pub mod error;
pub mod splice;
pub mod tags;

pub use codec::{decode_comment_header, make_comment_header};
pub use error::{DecodeError, Error};
pub use splice::{ends_group, find_comment_header, is_comment_header, packet_end, replace_packets, OutPacket, Packet, PacketEnd};
pub use tags::{CommentHeader, VorbisComments};
