use vstd::prelude::*;
use std::collections::VecDeque;
use crate::radx::{views, RadixModel, RadixT};

verus! {

/// What a key of the store holds: a string, a list of strings, or a stream.
#[allow(non_camel_case_types)]
pub enum Data_Storage {
    RedisString(Vec<u8>),
    RedisList(VecDeque<Vec<u8>>),
    RedisStream(RadixT),
}

/// The mathematical form of what a key holds.
pub enum StorageModel {
    Str(Seq<u8>),
    List(Seq<Seq<u8>>),
    Stream(RadixModel),
}

impl View for Data_Storage {
    type V = StorageModel;

    open spec fn view(&self) -> StorageModel {
        match self {
            Data_Storage::RedisString(v) => StorageModel::Str(v@),
            Data_Storage::RedisList(l) => StorageModel::List(views(l@)),
            Data_Storage::RedisStream(t) => StorageModel::Stream(t@),
        }
    }
}

} // verus!
