//! Client-side marshalling for a key-value document store's wire protocol:
//! a typed attribute-value model, the codec between that model, a plain
//! structured form, and the store's tagged wire form, plus the builders for
//! primary keys, condition expressions, and request bodies.

pub mod base64;
pub mod chars;
pub mod codec;
pub mod condition;
pub mod error;
pub mod json;
pub mod parse;
pub mod request;
pub mod text;
pub mod types;

pub use condition::Condition;
pub use error::{AWSApiError, DynamoDbError, DynamoDbResult};
pub use json::JsonValue;
pub use types::{
    Item, Number, PrimaryKey, PrimaryKeyValue, PrimaryKeyValuePair, ToPrimaryKey,
    ToPrimaryKeyValue, ToPrimaryKeyValuePair,
};
