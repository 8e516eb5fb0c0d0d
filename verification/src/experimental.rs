//! Experimental table variants: an extendible-hash table built from
//! splittable probing tables, and a small-footprint table tuned for tiny
//! key sets.

pub mod extendible_hashtable;
pub mod stack_hashtable;
