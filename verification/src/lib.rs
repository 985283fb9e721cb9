//! A scraper for the webscraper.io e-commerce test site: the page
//! bookkeeping, the HTML queries and the product rules, verified.

pub mod catalog;
pub mod command;
pub mod html;
pub mod page;
pub mod pattern;
pub mod product;
pub mod text;
