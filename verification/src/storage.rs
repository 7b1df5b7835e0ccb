pub mod sd_card;
pub mod sd_card_utils;
