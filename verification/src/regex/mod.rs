pub mod correct;
pub mod expr;
pub mod grammar;
pub mod layout;
pub mod matcher;
pub mod meaning;
pub mod nfa;
pub mod runs;
pub mod written;
