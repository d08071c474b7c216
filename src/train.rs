pub mod ngram;
