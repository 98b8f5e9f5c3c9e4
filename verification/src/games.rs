//! The tasks that come with the library.

pub mod blackjack;
pub mod gambler;
pub mod jacks_car_rental;
