//! Verified core of the CodeEraser gate suite: the registry grammars,
//! the table restatement reader, the chip channel, the exam draw
//! arithmetic and the replay ledgers.

pub mod fpr_replay;
pub mod fpr_replay_parts;
pub mod text;
pub mod eval_support;
pub mod eval_lang_parts;
pub mod facts;
pub mod eval_mention_parts;
pub mod eval_similar_precision;
pub mod eval_similar_precision_parts;
pub mod face_parity;
pub mod fixtures_why;
pub mod fpr_zone;
pub mod fpr_fourclass;
pub mod grammar_pins;
pub mod eval_t3_precision_parts;
