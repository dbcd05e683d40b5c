//! Edge inference and fine-tuning engine: transformer and MLP layers, Llama-style
//! decoders, the FINF and GGUF formats, int8 and int4 weights, and training, with
//! every operation on the bits of its numbers stated and proved.

pub mod activation;
pub mod activation_laws;
pub mod adam_laws;
pub mod attention;
pub mod attention_laws;
pub mod backward_laws;
pub mod block_laws;
pub mod block_layouts;
pub mod block_rows;
pub mod bytes;
pub mod checkpoint;
pub mod clean_twice;
pub mod clip_bounds;
pub mod csv;
pub mod dataset;
pub mod decimal;
pub mod decoder;
pub mod decoder_laws;
pub mod deviations;
pub mod double;
pub mod epoch_laws;
pub mod error;
pub mod finf_cut;
pub mod finf_layers;
pub mod finf_reload;
pub mod finf_weights;
pub mod float;
pub mod float_errors;
pub mod gguf;
pub mod gguf_blocks;
pub mod gguf_codec;
pub mod gguf_encode;
pub mod gguf_export;
pub mod gguf_listing;
pub mod gguf_llama;
pub mod gguf_meta;
pub mod gguf_open;
pub mod gguf_read;
pub mod gguf_reload;
pub mod gguf_tokenizer;
pub mod gguf_write;
pub mod gradient_laws;
pub mod half;
pub mod head_scales;
pub mod index;
pub mod int8_grid;
pub mod layer;
pub mod llm;
pub mod llm_train;
pub mod loaded_laws;
pub mod loader;
pub mod loss;
pub mod loss_laws;
pub mod math;
pub mod merge_order;
pub mod metadata;
pub mod metadata_reload;
pub mod minibatch_laws;
pub mod model;
pub mod norm_laws;
pub mod normalizer;
pub mod ops;
pub mod optim;
pub mod parallel;
pub mod quant;
pub mod quant_bounds;
pub mod random_laws;
pub mod rng;
pub mod rope_start;
pub mod rope_turns;
pub mod rounding;
pub mod softmax_shares;
pub mod split_laws;
pub mod stacks;
pub mod sum_errors;
pub mod tensor;
pub mod text;
pub mod text_index;
pub mod textops;
pub mod token_laws;
pub mod train_attention;
pub mod train_block;
pub mod train_epochs;
pub mod train_model;
pub mod train_ops;
pub mod train_params;
pub mod train_steps;
pub mod training_laws;
pub mod transformer;
pub mod validity;

pub use activation::Activation;
pub use csv::{
    fit_normalizer_with_target, train_val_split, CsvDataset, ModelMetadata, Normalizer, TaskType,
};
pub use dataset::{clean_corpus, corpus_stats, validate_for_training, CleanOptions, CorpusStats};
pub use error::{InferError, Result};
pub use float::F32;
pub use layer::{
    ActivationLayer, Embedding, Flatten, KvCache, Layer, LayerNorm, Linear, TransformerBlock,
};
pub use loader::{from_bytes, to_bytes, to_bytes_quantized};
pub use loss::{mse, softmax_cross_entropy};
pub use math::Math;
pub use model::Sequential;
pub use ops::argmax_rows;
pub use optim::{Adam, Sgd};
pub use parallel::num_threads;
pub use quant::{fake_quantize_int8, QUANT_MIN_LEN};
pub use rng::Rng;
pub use tensor::Tensor;
