pub mod alphametics;
pub mod arithmetic;
pub mod high_scores;
pub mod perfect_numbers;
pub mod proverb;
pub mod space_age;
pub mod vlq;
