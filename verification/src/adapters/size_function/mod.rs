pub mod tiktoken;
