pub mod arena;
pub mod encode_changes;
pub mod encode_enhanced;
pub mod encode_reordered;
pub mod fast_snapshot;
pub mod forward_encode;
pub mod future_value;
pub mod leb;
pub mod outdated_encode_reordered;
pub mod reordered_codec;
pub mod reordered_codec_roundtrip;
pub mod reordered_roundtrip;
pub mod reordered_value;
pub mod shallow_snapshot;
pub mod value;
pub mod value_decode;
pub mod value_encode;
pub mod value_register;
pub mod value_top;
pub mod value_codec;
