pub mod bayesian_spam_classifier;
pub mod utills;
pub mod cache;
