pub mod ai;
pub mod deck;
pub mod game;
pub mod table;

pub use deck::Card;
pub use deck::Deck;
pub use deck::Rank;
pub use deck::Suit;
pub use ai::Action;
pub use ai::MoskaAI;
pub use game::moska::Moska;
pub use game::moska::PlayerAction;
pub use game::moska::State;

