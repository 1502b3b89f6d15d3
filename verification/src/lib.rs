//! A zero-copy parser-combinator runtime with byte-accurate positions.
//!
//! A grammar rule is a function from a cursor to a parse result: the cursor
//! after the match together with a value, or the reason why the rule
//! stopped. The primitive matchers and the combinators are methods of the
//! cursor; ready-made rules stand in `helpers`.

pub mod helpers;
pub mod patterns;
pub mod results;
pub mod shallow;
pub mod states;
pub mod text;
pub mod third_party;
pub mod unicode_set;

pub use crate::patterns::bracket_pair::{BracketPair, BracketPattern};
pub use crate::patterns::surround_pair::{SurroundPair, SurroundPairPattern};
pub use crate::patterns::zero_base_byte::ZeroBytePattern;
pub use crate::patterns::{NamedPattern, Pattern, StringView};
pub use crate::results::{CustomError, ParseResult, StopBecause};
pub use crate::shallow::{CharacterShallow, CounterMode, ShallowMode, ShallowString, WordShallow};
pub use crate::states::advance::ParseAdvance;
pub use crate::states::choice::ChoiceHelper;
pub use crate::states::{ParseState, Parsed};
pub use crate::third_party::{CharacterSet, CompiledRegex, InvalidPattern, RegexMatch};
pub use crate::unicode_set::{EasyWrite, TrieError, TrieTables, UnicodeSet};
