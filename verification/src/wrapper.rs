//! The reader as a whole: a file held in memory, its channels by name, and
//! the master axes that were read last.

use vstd::prelude::*;
use std::num::NonZeroUsize;
use lru::LruCache;
use crate::components::cg::{ChannelGroup, ChannelGroupModel};
use crate::components::cn::{
    physical_error, physical_holds, raw_error, raw_holds, Channel, ChannelModel, Physical,
};
use crate::components::dg::{
    channel_places, group_places, last_place, ChannelLink, DataGroup, DataGroupModel, Place,
};
use crate::data_serde::{str_eq, DataValue};
use crate::error::MdfError;
use crate::components::cn::{channel_models, lemma_channel_models};
use crate::components::dg::group_models;
use crate::parser::{
    data_group_models, file_places, is_duplicate, place_names, place_of, spec_mdf, DescMap, Mdf,
    MdfModel,
};

verus! {

// ---------------------------------------------------------------------------
// The cache of the `lru` crate
// ---------------------------------------------------------------------------

#[verifier::external_type_specification]
#[verifier::external_body]
#[verifier::reject_recursive_types(K)]
#[verifier::reject_recursive_types(V)]
#[verifier::reject_recursive_types(S)]
pub struct ExLruCache<K, V, S>(LruCache<K, V, S>);

#[verifier::external_type_specification]
#[verifier::external_body]
pub struct ExLruHasher(lru::DefaultHasher);

/// A place in the file: a data group and a channel group in it.
pub type GroupKey = (usize, usize);

/// The keys and values that a cache holds, the one used last first.
pub uninterp spec fn cache_entries(c: LruCache<GroupKey, DataValue>) -> Seq<(GroupKey, DataValue)>;

/// The number of entries that a cache holds at most.
pub uninterp spec fn cache_limit(c: LruCache<GroupKey, DataValue>) -> nat;

/// The place of the entry with the key `k`, if there is one.
pub open spec fn cache_place(e: Seq<(GroupKey, DataValue)>, k: GroupKey) -> Option<int>
    decreases e.len(),
{
    if e.len() == 0 {
        None
    } else if e[0].0 == k {
        Some(0)
    } else {
        match cache_place(e.drop_first(), k) {
            Some(i) => Some(i + 1),
            None => None,
        }
    }
}

/// The entries after the one with the key `k` is used: it comes first.
pub open spec fn promoted(e: Seq<(GroupKey, DataValue)>, k: GroupKey) -> Seq<(GroupKey, DataValue)> {
    match cache_place(e, k) {
        Some(i) => seq![e[i]] + e.remove(i),
        None => e,
    }
}

/// The entries after `v` is put under `k` into a cache of at most `limit`
/// entries: the new entry comes first; it takes the place of the entry
/// with that key, or, where the cache is full, of the entry used least
/// recently.
pub open spec fn put_entries(
    e: Seq<(GroupKey, DataValue)>,
    limit: nat,
    k: GroupKey,
    v: DataValue,
) -> Seq<(GroupKey, DataValue)> {
    match cache_place(e, k) {
        Some(i) => seq![(k, v)] + e.remove(i),
        None => if e.len() >= limit && e.len() > 0 {
            seq![(k, v)] + e.drop_last()
        } else {
            seq![(k, v)] + e
        },
    }
}

/// `LruCache::new`: an empty cache for at most `cap` entries.
#[verifier::external_body]
fn cache_new(cap: usize) -> (c: LruCache<GroupKey, DataValue>)
    requires
        cap > 0,
    ensures
        cache_entries(c) == Seq::<(GroupKey, DataValue)>::empty(),
        cache_limit(c) == cap,
{
    LruCache::new(NonZeroUsize::new(cap).unwrap())
}

/// `LruCache::contains`: whether the cache holds the key. The order of
/// use stays.
#[verifier::external_body]
fn cache_contains(c: &LruCache<GroupKey, DataValue>, k: &GroupKey) -> (r: bool)
    ensures
        r == (cache_place(cache_entries(*c), *k) is Some),
{
    c.contains(k)
}

/// `LruCache::promote`: the entry with the key counts as used last.
#[verifier::external_body]
fn cache_promote(c: &mut LruCache<GroupKey, DataValue>, k: &GroupKey)
    ensures
        cache_entries(*final(c)) == promoted(cache_entries(*old(c)), *k),
        cache_limit(*final(c)) == cache_limit(*old(c)),
    no_unwind
{
    c.promote(k);
}

/// `LruCache::peek`: the value under the key. The order of use stays.
#[verifier::external_body]
fn cache_peek<'a>(c: &'a LruCache<GroupKey, DataValue>, k: &GroupKey) -> (r: Option<&'a DataValue>)
    ensures
        match r {
            Some(v) => cache_place(cache_entries(*c), *k) is Some && cache_entries(
                *c,
            )[cache_place(cache_entries(*c), *k)->0].1 == *v,
            None => cache_place(cache_entries(*c), *k) is None,
        },
{
    c.peek(k)
}

/// `LruCache::put`: the value stands under the key and counts as used
/// last; where the key is new and the cache is full, the entry used least
/// recently leaves.
#[verifier::external_body]
fn cache_put(c: &mut LruCache<GroupKey, DataValue>, k: GroupKey, v: DataValue)
    ensures
        cache_entries(*final(c)) == put_entries(cache_entries(*old(c)), cache_limit(*old(c)), k, v),
        cache_limit(*final(c)) == cache_limit(*old(c)),
    no_unwind
{
    c.put(k, v);
}

// ---------------------------------------------------------------------------
// The reader
// ---------------------------------------------------------------------------

/// The names and places that an index of channels holds.
pub open spec fn index_models(index: Seq<(String, Place)>) -> Seq<(Seq<char>, Place)> {
    Seq::new(index.len(), |i: int| (index[i].0@, index[i].1))
}

/// Whether `v` is the raw data of the master channel of the channel group
/// with the key `k`.
pub open spec fn master_data_is(data: Seq<DataGroupModel>, file: Seq<u8>, k: GroupKey, v: DataValue) -> bool {
    &&& k.0 < data.len()
    &&& k.1 < data[k.0 as int].channel_groups.len()
    &&& data[k.0 as int].channel_groups[k.1 as int].master is Some
    &&& raw_holds(
        data[k.0 as int].channel_groups[k.1 as int].master->0,
        data[k.0 as int],
        data[k.0 as int].channel_groups[k.1 as int],
        file,
        v,
    )
}

/// Why the raw data of the master channel of the channel group with the
/// key `k` cannot be had, if they cannot.
pub open spec fn master_error(data: Seq<DataGroupModel>, file: Seq<u8>, k: GroupKey) -> Option<MdfError> {
    let cg = data[k.0 as int].channel_groups[k.1 as int];
    match cg.master {
        None => Some(MdfError::NoMaster),
        Some(master) => raw_error(master, data[k.0 as int], cg, file),
    }
}

/// A measurement file held in memory, with its channels by name and with
/// the master data of the channel groups that were asked for last.
pub struct Mf4Wrapper {
    mdf: Mdf,
    map: DescMap,
    file: Vec<u8>,
    channel_cache: Vec<(String, Place)>,
    master_cache: LruCache<GroupKey, DataValue>,
}

impl Mf4Wrapper {
    /// What the file holds.
    pub closed spec fn contents(&self) -> MdfModel {
        self.mdf@
    }

    /// The bytes of the file.
    pub closed spec fn bytes(&self) -> Seq<u8> {
        self.file@
    }

    /// The schemas by which the file is read.
    pub closed spec fn schemas(&self) -> DescMap {
        self.map
    }

    /// The master data kept, those asked for last first.
    pub closed spec fn kept(&self) -> Seq<(GroupKey, DataValue)> {
        cache_entries(self.master_cache)
    }

    #[verifier::type_invariant]
    spec fn inv(&self) -> bool {
        &&& index_models(self.channel_cache@) == file_places(
            self.mdf@.data,
            self.mdf@.data.len() as int,
        )
        &&& forall|i: int|
            0 <= i < self.channel_cache@.len() ==> place_names(
                self.mdf@.data,
                (#[trigger] self.channel_cache@[i]).1,
                self.channel_cache@[i].0@,
            )
        &&& cache_limit(self.master_cache) == 5
        &&& forall|i: int|
            0 <= i < cache_entries(self.master_cache).len() ==> master_data_is(
                self.mdf@.data,
                self.file@,
                (#[trigger] cache_entries(self.master_cache)[i]).0,
                cache_entries(self.master_cache)[i].1,
            )
    }

    /// Opens the file whose bytes are `file`, read by the schemas `map`.
    pub fn new(map: DescMap, file: Vec<u8>) -> (r: Result<Self, MdfError>)
        ensures
            match r {
                Ok(w) => {
                    &&& spec_mdf(&map, file@) == Ok::<MdfModel, MdfError>(w.contents())
                    &&& w.bytes() == file@
                    &&& w.schemas() == map
                    &&& w.kept() == Seq::<(GroupKey, DataValue)>::empty()
                },
                Err(e) => spec_mdf(&map, file@) == Err::<MdfModel, MdfError>(e),
            },
    {
        let mdf: Mdf = match Mdf::new(&map, file.as_slice()) {
            Ok(m) => m,
            Err(e) => {
                return Err(e);
            },
        };
        let channel_cache: Vec<(String, Place)> = Self::index_channels(&mdf);
        let master_cache: LruCache<GroupKey, DataValue> = cache_new(5);
        Ok(Mf4Wrapper { mdf, map, file, channel_cache, master_cache })
    }

    fn index_channels(mdf: &Mdf) -> (index: Vec<(String, Place)>)
        ensures
            index_models(index@) == file_places(mdf@.data, mdf@.data.len() as int),
            forall|i: int|
                0 <= i < index@.len() ==> place_names(
                    mdf@.data,
                    (#[trigger] index@[i]).1,
                    index@[i].0@,
                ),
    {
        let mut index: Vec<(String, Place)> = Vec::new();
        let ghost data = mdf@.data;
        assert(index_models(index@) =~= file_places(data, 0));
        let mut d: usize = 0;
        while d < mdf.data.len()
            invariant
                d <= mdf.data@.len(),
                data == mdf@.data,
                data == data_group_models(mdf.data@),
                index_models(index@) == file_places(data, d as int),
                forall|i: int|
                    0 <= i < index@.len() ==> place_names(data, (#[trigger] index@[i]).1, index@[i].0@),
            decreases mdf.data@.len() - d,
        {
            let dg: &DataGroup = &mdf.data[d];
            assert(dg@ == data[d as int]);
            let groups: &Vec<ChannelGroup> = dg.get_channle_groups();
            let ghost gm = data[d as int].channel_groups;
            let ghost base = index_models(index@);
            assert(base + group_places(d, gm, 0) =~= base);
            let mut g: usize = 0;
            while g < groups.len()
                invariant
                    g <= groups@.len(),
                    d < data.len(),
                    gm == data[d as int].channel_groups,
                    gm == group_models(groups@),
                    index_models(index@) == base + group_places(d, gm, g as int),
                    forall|i: int|
                        0 <= i < index@.len() ==> place_names(
                            data,
                            (#[trigger] index@[i]).1,
                            index@[i].0@,
                        ),
                decreases groups@.len() - g,
            {
                let cg: &ChannelGroup = &groups[g];
                assert(cg@ == gm[g as int]);
                let channels: &Vec<Channel> = cg.get_channels();
                let ghost cm = gm[g as int].channels;
                let ghost mid = index_models(index@);
                proof {
                    lemma_channel_models(channels@);
                    assert(mid + channel_places(d, g, cm, 0) =~= mid);
                }
                let mut c: usize = 0;
                while c < channels.len()
                    invariant
                        c <= channels@.len(),
                        cm == channel_models(channels@),
                        cm.len() == channels@.len(),
                        forall|j: int|
                            0 <= j < channels@.len() ==> (#[trigger] cm[j]) == channels@[j]@,
                        d < data.len(),
                        g < gm.len(),
                        gm == data[d as int].channel_groups,
                        cm == gm[g as int].channels,
                        index_models(index@) == mid + channel_places(d, g, cm, c as int),
                        forall|i: int|
                            0 <= i < index@.len() ==> place_names(
                                data,
                                (#[trigger] index@[i]).1,
                                index@[i].0@,
                            ),
                    decreases channels@.len() - c,
                {
                    let ghost before = index_models(index@);
                    let ghost before_index = index@;
                    index.push((channels[c].get_name().to_owned(), (d, g, c)));
                    proof {
                        assert forall|i: int| 0 <= i < index@.len() implies place_names(
                            data,
                            (#[trigger] index@[i]).1,
                            index@[i].0@,
                        ) by {
                            if i < before_index.len() {
                                assert(index@[i] == before_index[i]);
                            }
                        }
                        assert(index_models(index@) =~= before.push((cm[c as int].name, (d, g, c))));
                        assert(mid + channel_places(d, g, cm, c + 1) =~= (mid + channel_places(
                            d,
                            g,
                            cm,
                            c as int,
                        )).push((cm[c as int].name, (d, g, c))));
                    }
                    c += 1;
                }
                proof {
                    assert(base + group_places(d, gm, g + 1) =~= (base + group_places(d, gm, g as int))
                        + channel_places(d, g, cm, cm.len() as int));
                }
                g += 1;
            }
            d += 1;
        }
        index
    }

    fn find_place(&self, name: &str) -> (r: Option<Place>)
        ensures
            r == place_of(self.contents().data, name@),
            match r {
                Some(p) => place_names(self.contents().data, p, name@),
                None => true,
            },
    {
        proof {
            use_type_invariant(self);
        }
        let ghost places = index_models(self.channel_cache@);
        let mut k: usize = self.channel_cache.len();
        assert(places.subrange(0, k as int) =~= places);
        while k > 0
            invariant
                k <= self.channel_cache@.len(),
                places == index_models(self.channel_cache@),
                places == file_places(self.mdf@.data, self.mdf@.data.len() as int),
                forall|i: int|
                    0 <= i < self.channel_cache@.len() ==> place_names(
                        self.mdf@.data,
                        (#[trigger] self.channel_cache@[i]).1,
                        self.channel_cache@[i].0@,
                    ),
                last_place(places, name@) == last_place(places.subrange(0, k as int), name@),
            decreases k,
        {
            proof {
                let part = places.subrange(0, k as int);
                assert(part.drop_last() =~= places.subrange(0, k - 1));
                assert(part.last() == places[k - 1]);
            }
            k -= 1;
            if str_eq(self.channel_cache[k].0.as_str(), name) {
                let found: Place = self.channel_cache[k].1;
                return Some(found);
            }
        }
        proof {
            assert(places.subrange(0, 0) =~= Seq::<(Seq<char>, Place)>::empty());
        }
        None
    }

    /// The names of all channels of the file.
    pub fn get_channel_names(&self) -> (names: Vec<String>)
        ensures
            names.deep_view() == crate::parser::file_names(
                self.contents().data,
                self.contents().data.len() as int,
            ),
    {
        self.mdf.get_all_channel_names()
    }

    /// The channel named `channel_name`, with its channel group and its
    /// data group. Of several channels with that name it is the last.
    pub fn get_channel_link(&self, channel_name: &str) -> (r: Option<ChannelLink<'_>>)
        ensures
            match r {
                Some(l) => {
                    &&& place_of(self.contents().data, channel_name@) is Some
                    &&& ({
                        let p = place_of(self.contents().data, channel_name@)->0;
                        let dg = self.contents().data[p.0 as int];
                        &&& place_names(self.contents().data, p, channel_name@)
                        &&& l.spec_data_group()@ == dg
                        &&& l.spec_channel_group()@ == dg.channel_groups[p.1 as int]
                        &&& l.spec_channel()@ == dg.channel_groups[p.1 as int].channels[p.2 as int]
                    })
                },
                None => place_of(self.contents().data, channel_name@) is None,
            },
    {
        let p: Place = match self.find_place(channel_name) {
            Some(p) => p,
            None => {
                return None;
            },
        };
        let dg: &DataGroup = match self.mdf.nth_dg(p.0) {
            Some(dg) => dg,
            None => {
                return None;
            },
        };
        let cg: &ChannelGroup = match dg.nth_cg(p.1) {
            Some(cg) => cg,
            None => {
                return None;
            },
        };
        let cn: &Channel = match cg.nth_cn(p.2) {
            Some(cn) => cn,
            None => {
                return None;
            },
        };
        Some(ChannelLink::new(cn, cg, dg))
    }

    /// What is read of the channel named `channel_name`.
    pub fn get_channel_data(&self, channel_name: &str) -> (r: Option<Physical>)
        ensures
            match place_of(self.contents().data, channel_name@) {
                None => r is None,
                Some(p) => {
                    let dg = self.contents().data[p.0 as int];
                    let cg = dg.channel_groups[p.1 as int];
                    let cn = cg.channels[p.2 as int];
                    match r {
                        Some(read) => physical_error(cn, dg, cg, &self.schemas(), self.bytes())
                            is None && physical_holds(
                            cn,
                            dg,
                            cg,
                            &self.schemas(),
                            self.bytes(),
                            read,
                        ),
                        None => physical_error(cn, dg, cg, &self.schemas(), self.bytes()) is Some,
                    }
                },
            },
    {
        match self.get_channel_link(channel_name) {
            None => None,
            Some(link) => {
                match link.get_channel().get_data(
                    &self.map,
                    self.file.as_slice(),
                    link.get_data_group(),
                    link.get_channel_group(),
                ) {
                    Ok(read) => Some(read),
                    Err(_) => None,
                }
            },
        }
    }

    /// The raw samples of the channel named `channel_name`.
    pub fn get_channel_raw_data(&self, channel_name: &str) -> (r: Option<DataValue>)
        ensures
            match place_of(self.contents().data, channel_name@) {
                None => r is None,
                Some(p) => {
                    let dg = self.contents().data[p.0 as int];
                    let cg = dg.channel_groups[p.1 as int];
                    let cn = cg.channels[p.2 as int];
                    match r {
                        Some(v) => raw_error(cn, dg, cg, self.bytes()) is None && raw_holds(
                            cn,
                            dg,
                            cg,
                            self.bytes(),
                            v,
                        ) && v.spec_len() == cg.cycle_count,
                        None => raw_error(cn, dg, cg, self.bytes()) is Some,
                    }
                },
            },
    {
        match self.get_channel_link(channel_name) {
            None => None,
            Some(link) => {
                match link.get_channel().get_data_raw(
                    self.file.as_slice(),
                    link.get_data_group(),
                    link.get_channel_group(),
                ) {
                    Ok(v) => Some(v),
                    Err(_) => None,
                }
            },
        }
    }

    /// The channel groups of the file.
    pub fn get_all_channel_groups(&self) -> (groups: Vec<&ChannelGroup>)
        ensures
            groups@.len() == crate::parser::file_groups(
                self.contents().data,
                self.contents().data.len() as int,
            ).len(),
            forall|k: int|
                0 <= k < groups@.len() ==> (#[trigger] groups@[k])@ == crate::parser::file_groups(
                    self.contents().data,
                    self.contents().data.len() as int,
                )[k],
    {
        self.mdf.get_all_channel_groups()
    }

    /// The start time of the measurement as text.
    pub fn get_time_stamp(&self) -> (s: String)
        ensures
            s@ == self.contents().mdfinfo.date_time,
    {
        self.mdf.get_time_stamp()
    }

    /// Whether every data group of the file is sorted.
    pub fn is_sorted(&self) -> (b: bool)
        ensures
            b == (forall|i: int|
                0 <= i < self.contents().data.len() ==> (#[trigger] self.contents().data[i]).sorted),
    {
        self.mdf.is_sorted()
    }

    /// The names that occur in more than one data group, or nothing where
    /// no name does.
    pub fn check_duplicates(&self) -> (r: Option<Vec<String>>)
        ensures
            r is Some <==> exists|name: Seq<char>|
                is_duplicate(self.contents().data, name),
            r is Some ==> forall|k: int|
                0 <= k < r->0@.len() ==> is_duplicate(
                    self.contents().data,
                    (#[trigger] r->0@[k])@,
                ),
            r is Some ==> forall|name: Seq<char>|
                is_duplicate(self.contents().data, name) ==> r->0.deep_view().contains(
                    name,
                ),
    {
        let r: Option<Vec<String>> = self.mdf.check_duplicate_channel();
        proof {
            let data = self.mdf@.data;
            if r is Some {
                let name = choose|name: Seq<char>| is_duplicate(data, name);
                assert(is_duplicate(self.contents().data, name));
            }
            if exists|name: Seq<char>| is_duplicate(self.contents().data, name) {
                let name = choose|name: Seq<char>| is_duplicate(self.contents().data, name);
                assert(is_duplicate(data, name));
            }
        }
        r
    }
}

/// The master data kept after the master data of the group with the key
/// `k` were asked for and found to be `v`: where they were kept, they now
/// count as used last; else they are put in.
pub open spec fn kept_after(
    kept: Seq<(GroupKey, DataValue)>,
    k: GroupKey,
    v: DataValue,
) -> Seq<(GroupKey, DataValue)> {
    if cache_place(kept, k) is Some {
        promoted(kept, k)
    } else {
        put_entries(kept, 5, k, v)
    }
}

/// A place found in a cache lies in it and holds the key.
proof fn lemma_cache_place(e: Seq<(GroupKey, DataValue)>, k: GroupKey)
    ensures
        match cache_place(e, k) {
            Some(i) => 0 <= i < e.len() && e[i].0 == k,
            None => forall|j: int| 0 <= j < e.len() ==> (#[trigger] e[j]).0 != k,
        },
    decreases e.len(),
{
    if e.len() > 0 && e[0].0 != k {
        lemma_cache_place(e.drop_first(), k);
        match cache_place(e.drop_first(), k) {
            Some(i) => {
                assert(e.drop_first()[i] == e[i + 1]);
            },
            None => {
                assert forall|j: int| 0 <= j < e.len() implies (#[trigger] e[j]).0 != k by {
                    if j > 0 {
                        assert(e.drop_first()[j - 1] == e[j]);
                    }
                }
            },
        }
    }
}

impl Mf4Wrapper {
    /// The raw data of the master channel of the group that the channel
    /// named `channel_name` belongs to. The master data of the five groups
    /// asked for last are kept and not read again.
    pub fn get_channel_master_data(&mut self, channel_name: &str) -> (r: Option<&DataValue>)
        ensures
            final(self).contents() == old(self).contents(),
            final(self).bytes() == old(self).bytes(),
            final(self).schemas() == old(self).schemas(),
            match place_of(old(self).contents().data, channel_name@) {
                None => r is None && final(self).kept() == old(self).kept(),
                Some(p) => match r {
                    Some(v) => {
                        &&& master_data_is(
                            old(self).contents().data,
                            old(self).bytes(),
                            (p.0, p.1),
                            *v,
                        )
                        &&& final(self).kept() == kept_after(old(self).kept(), (p.0, p.1), *v)
                    },
                    None => {
                        &&& cache_place(old(self).kept(), (p.0, p.1)) is None
                        &&& master_error(old(self).contents().data, old(self).bytes(), (p.0, p.1))
                            is Some
                        &&& final(self).kept() == old(self).kept()
                    },
                },
            },
    {
        proof {
            use_type_invariant(&*self);
        }
        let p: Place = match self.find_place(channel_name) {
            Some(p) => p,
            None => {
                return None;
            },
        };
        let key: GroupKey = (p.0, p.1);
        let ghost kept = cache_entries(self.master_cache);
        let ghost data = self.mdf@.data;
        proof {
            lemma_cache_place(kept, key);
        }
        if cache_contains(&self.master_cache, &key) {
            cache_promote(&mut self.master_cache, &key);
            proof {
                let i = cache_place(kept, key)->0;
                let now = cache_entries(self.master_cache);
                assert forall|j: int| 0 <= j < now.len() implies master_data_is(
                    data,
                    self.file@,
                    (#[trigger] now[j]).0,
                    now[j].1,
                ) by {
                    if j == 0 {
                        assert(now[0] == kept[i]);
                    } else if j <= i {
                        assert(now[j] == kept[j - 1]);
                    } else {
                        assert(now[j] == kept[j]);
                    }
                }
                lemma_cache_place(now, key);
            }
        } else {
            let v: DataValue = match self.read_master(key) {
                Some(v) => v,
                None => {
                    return None;
                },
            };
            let ghost fresh = v;
            cache_put(&mut self.master_cache, key, v);
            proof {
                let now = cache_entries(self.master_cache);
                assert(now[0] == (key, fresh));
                assert forall|j: int| 0 <= j < now.len() implies master_data_is(
                    data,
                    self.file@,
                    (#[trigger] now[j]).0,
                    now[j].1,
                ) by {
                    if j > 0 {
                        assert(now[j] == kept[j - 1]);
                    }
                }
                lemma_cache_place(now, key);
            }
        }
        cache_peek(&self.master_cache, &key)
    }

    fn read_master(&self, key: GroupKey) -> (r: Option<DataValue>)
        requires
            key.0 < self.contents().data.len(),
            key.1 < self.contents().data[key.0 as int].channel_groups.len(),
        ensures
            match r {
                Some(v) => master_data_is(self.contents().data, self.bytes(), key, v),
                None => master_error(self.contents().data, self.bytes(), key) is Some,
            },
    {
        let dg: &DataGroup = match self.mdf.nth_dg(key.0) {
            Some(dg) => dg,
            None => {
                return None;
            },
        };
        let cg: &ChannelGroup = match dg.nth_cg(key.1) {
            Some(cg) => cg,
            None => {
                return None;
            },
        };
        let master: &Channel = match cg.get_master() {
            Some(m) => m,
            None => {
                return None;
            },
        };
        match master.get_data_raw(self.file.as_slice(), dg, cg) {
            Ok(v) => Some(v),
            Err(_) => None,
        }
    }
}

} // verus!
