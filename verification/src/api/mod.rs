//! What the engine offers to its callers.

pub mod events;
pub mod flat;
pub mod laws;
pub mod learning;
pub mod ledger;
pub mod resources;
pub mod snippets;
pub mod worker;

pub use events::{
    convert_to_events, KeyEvent, LexConversionMode, LexEvent, LexKeyEvent, LexKeyResponse,
    LexRomajiConvert, LexRomajiLookup, LexTriggerKey,
};
pub use ledger::LexHistoryDurabilityIssue;
pub use resources::{
    LexDictEntry, LexDictionary, LexError, LexHistoryCheckpointState, LexHistoryOpenReport,
    LexHistoryWalState, LexUserDictOpenReport, LexUserDictionary, LexUserWord,
};
pub use snippets::{snippets_build_store, LexSnippetEntry, LexSnippetStore};
