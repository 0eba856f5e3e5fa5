//! A verified codec for the bencode serialization format: byte strings,
//! signed integers, lists, and dictionaries with keys kept in strictly
//! ascending byte-lexicographic order, so that every value tree has exactly
//! one canonical byte encoding.

mod bencode;
mod decode;
mod encode;
mod laws;

pub use bencode::BValue;
pub use bencode::BencodeType;
pub use bencode::Dictionary;
pub use bencode::keys_sorted;
pub use bencode::lex_lt;
pub use bencode::spec_insert;
pub use bencode::wf;
pub use decode::DecodeError;
pub use decode::Decoder;
pub use decode::decode;
pub use decode::all_digits;
pub use decode::dec_bytes;
pub use decode::dec_dict;
pub use decode::dec_int;
pub use decode::dec_list;
pub use decode::dec_val;
pub use decode::digits_val;
pub use decode::int_span_ok;
pub use decode::int_span_val;
pub use decode::is_digit;
pub use decode::seek;
pub use laws::lemma_dec_rep;
pub use laws::lemma_dec_bytes_enc;
pub use laws::lemma_decode_of_encode;
pub use laws::lemma_enc_first_byte;
pub use laws::lemma_encode_of_decode;
pub use laws::lemma_int_rep;
pub use laws::lemma_round_trip_at;
pub use laws::lemma_truncation;
pub use laws::lemma_unexpected_character;
pub use bencode::lemma_insert_commutes;
pub use bencode::lemma_insert_max;
pub use bencode::lemma_insert_sorted;
pub use bencode::lemma_lex_skip;
pub use bencode::lemma_lex_total;
pub use bencode::lemma_lex_trans;
pub use encode::Encodable;
pub use encode::dec_rep;
pub use encode::encode;
pub use encode::encode_value;
pub use encode::int_rep;
pub use encode::spec_encode;
pub use encode::spec_encode_bytes;
pub use encode::spec_encode_items;
pub use encode::spec_encode_pairs;
