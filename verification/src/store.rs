//! An in-memory page store and random access to its pages.
use vstd::arithmetic::div_mod::lemma_fundamental_div_mod;
use vstd::prelude::*;

use crate::error::{Error, Result};
use crate::page::{Page, PAGE_SIZE};
use crate::superblock::{superblock_of, Superblock, SA_MAGIC};

verus! {

/// An SA17 page store: a whole file image held in memory.
#[derive(Debug)]
pub struct PageStore {
    bytes: Vec<u8>,
}

/// The outcome of wrapping `bytes` as a page store: a buffer shorter than a
/// page is too small, one that is not a whole number of pages is not
/// aligned.
pub open spec fn store_check(bytes: Seq<u8>) -> Option<Error> {
    if bytes.len() < PAGE_SIZE {
        Some(Error::TooSmall { size: bytes.len() as u64 })
    } else if bytes.len() % (PAGE_SIZE as nat) != 0 {
        Some(Error::NotPageAligned { size: bytes.len() as u64, page_size: PAGE_SIZE })
    } else {
        None
    }
}

/// The bytes of page `index` of a store image.
pub open spec fn page_bytes(image: Seq<u8>, index: int) -> Seq<u8> {
    image.subrange(index * PAGE_SIZE, index * PAGE_SIZE + PAGE_SIZE)
}

impl View for PageStore {
    type V = Seq<u8>;

    closed spec fn view(&self) -> Seq<u8> {
        self.bytes@
    }
}

impl PageStore {
    /// A store holds at least one page and a whole number of pages.
    #[verifier::type_invariant]
    spec fn store_inv(self) -> bool {
        &&& self.bytes@.len() >= PAGE_SIZE
        &&& self.bytes@.len() % (PAGE_SIZE as nat) == 0
    }

    /// The number of pages of the store, as a specification value.
    pub open spec fn spec_page_count(&self) -> nat {
        self@.len() / (PAGE_SIZE as nat)
    }

    /// The image of every store is at least one page and a whole number of
    /// pages long.
    pub(crate) fn assert_shape(&self)
        ensures
            self@.len() >= PAGE_SIZE,
            self@.len() % (PAGE_SIZE as nat) == 0,
            self.spec_page_count() >= 1,
            self@.len() == self.spec_page_count() * PAGE_SIZE,
    {
        proof {
            use_type_invariant(self);
            let len = self.bytes@.len();
            assert(len == (len / 4096) * 4096) by (nonlinear_arith)
                requires
                    len % 4096 == 0,
            ;
        }
    }

    /// Wrap an already-materialised byte buffer as a page store.
    ///
    /// The buffer length must be a positive multiple of [`PAGE_SIZE`].
    pub fn from_bytes(bytes: Vec<u8>) -> (r: Result<PageStore>)
        ensures
            match store_check(bytes@) {
                Some(e) => r == Err::<PageStore, Error>(e),
                None => (r matches Ok(s) && s@ == bytes@),
            },
    {
        let size = bytes.len() as u64;
        if bytes.len() < PAGE_SIZE {
            return Err(Error::TooSmall { size });
        }
        if bytes.len() % PAGE_SIZE != 0 {
            return Err(Error::NotPageAligned { size, page_size: PAGE_SIZE });
        }
        Ok(PageStore { bytes })
    }

    /// Total number of pages in the store.
    pub fn page_count(&self) -> (r: u64)
        ensures
            r == self.spec_page_count(),
            r >= 1,
    {
        proof {
            use_type_invariant(self);
        }
        (self.bytes.len() / PAGE_SIZE) as u64
    }

    /// Total file size in bytes.
    pub fn size_bytes(&self) -> (r: u64)
        ensures
            r == self@.len(),
    {
        self.bytes.len() as u64
    }

    /// Borrow a single page by zero-based index.
    pub fn page(&self, index: u64) -> (r: Result<Page<'_>>)
        ensures
            index < self.spec_page_count() ==> (r matches Ok(p) && p.spec_index() == index
                && p.spec_bytes() == page_bytes(self@, index as int)),
            index >= self.spec_page_count() ==> r == Err::<Page<'_>, Error>(
                Error::PageOutOfRange { page: index, total: self.spec_page_count() as u64 },
            ),
    {
        let total = self.page_count();
        if index >= total {
            return Err(Error::PageOutOfRange { page: index, total });
        }
        let _n = self.bytes.len();
        proof {
            use_type_invariant(self);
            let len = self.bytes@.len();
            assert(len == total * PAGE_SIZE) by (nonlinear_arith)
                requires
                    len % 4096 == 0,
                    total == len / 4096,
                    PAGE_SIZE == 4096,
            ;
            assert(index * PAGE_SIZE + PAGE_SIZE <= total * PAGE_SIZE) by (nonlinear_arith)
                requires
                    index < total,
            ;
            assert(index * PAGE_SIZE + PAGE_SIZE <= len);
            assert(len <= usize::MAX);
            assert(index as usize * PAGE_SIZE == index * PAGE_SIZE);
        }
        let start = index as usize * PAGE_SIZE;
        Ok(Page::new(index, &self.bytes.as_slice()[start..start + PAGE_SIZE]))
    }

    /// Iterate over every page in order, starting at page 0.
    pub fn pages(&self) -> (r: Pages<'_>)
        ensures
            r.spec_store() == self,
            r.spec_next() == 0,
    {
        Pages { store: self, next: 0 }
    }

    /// Parse and return the page-0 superblock, checking its magic; use
    /// [`PageStore::try_superblock`] to skip the check.
    pub fn superblock(&self) -> (r: Result<Superblock>)
        ensures
            ({
                let sb = superblock_of(page_bytes(self@, 0));
                if sb.magic == SA_MAGIC {
                    r == Ok::<Superblock, Error>(sb)
                } else {
                    r == Err::<Superblock, Error>(Error::BadMagic { got: sb.magic, want: SA_MAGIC })
                }
            }),
    {
        let sb = match self.try_superblock() {
            Ok(sb) => sb,
            Err(e) => return Err(e),
        };
        if !sb.magic_ok() {
            return Err(Error::BadMagic { got: sb.magic, want: SA_MAGIC });
        }
        Ok(sb)
    }

    /// Parse the page-0 superblock without validating the magic. A store
    /// always has a page 0, so this never fails.
    pub fn try_superblock(&self) -> (r: Result<Superblock>)
        ensures
            r == Ok::<Superblock, Error>(superblock_of(page_bytes(self@, 0))),
    {
        self.assert_shape();
        let page0 = match self.page(0) {
            Ok(p) => p,
            Err(e) => return Err(e),
        };
        Ok(Superblock::parse(page0.bytes()))
    }
}

/// Walks the pages of a [`PageStore`] in order (see [`PageStore::pages`]).
#[derive(Debug)]
pub struct Pages<'a> {
    store: &'a PageStore,
    next: u64,
}

impl<'a> Pages<'a> {
    /// The walk never runs past the last page.
    #[verifier::type_invariant]
    spec fn pages_inv(self) -> bool {
        self.next <= self.store.spec_page_count()
    }

    /// The store being walked.
    pub closed spec fn spec_store(self) -> &'a PageStore {
        self.store
    }

    /// The number of the page that the next call hands out.
    pub closed spec fn spec_next(self) -> u64 {
        self.next
    }

    /// The next page in order, or `None` once every page has been handed out.
    pub fn next(&mut self) -> (r: Option<Page<'a>>)
        ensures
            old(self).spec_next() <= old(self).spec_store().spec_page_count(),
            final(self).spec_store() == old(self).spec_store(),
            old(self).spec_next() < old(self).spec_store().spec_page_count() ==> {
                &&& r matches Some(p) && p.spec_index() == old(self).spec_next() && p.spec_bytes()
                    == page_bytes(old(self).spec_store()@, old(self).spec_next() as int)
                &&& final(self).spec_next() == old(self).spec_next() + 1
            },
            old(self).spec_next() == old(self).spec_store().spec_page_count() ==> {
                &&& r is None
                &&& final(self).spec_next() == old(self).spec_next()
            },
    {
        proof {
            use_type_invariant(&*self);
        }
        if self.next >= self.store.page_count() {
            return None;
        }
        let page = match self.store.page(self.next) {
            Ok(p) => p,
            Err(_) => return None,
        };
        self.next = self.next + 1;
        Some(page)
    }

    /// The number of pages not yet handed out, as lower and upper bound.
    pub fn size_hint(&self) -> (r: (usize, Option<usize>))
        ensures
            self.spec_next() <= self.spec_store().spec_page_count(),
            r == (
            (self.spec_store().spec_page_count() - self.spec_next()) as usize,
            Some((self.spec_store().spec_page_count() - self.spec_next()) as usize),
            ),
    {
        proof {
            use_type_invariant(self);
        }
        let total = self.store.page_count();
        let remaining = (total - self.next) as usize;
        (remaining, Some(remaining))
    }
}


/// The pages of a store image partition it: byte `k` of the image is byte
/// `k % PAGE_SIZE` of page `k / PAGE_SIZE`, and page `i` is a whole page
/// of the image.
pub proof fn lemma_pages_partition_image(image: Seq<u8>, k: int)
    requires
        image.len() % (PAGE_SIZE as nat) == 0,
        0 <= k < image.len(),
    ensures
        0 <= k / (PAGE_SIZE as int) < image.len() / (PAGE_SIZE as nat),
        page_bytes(image, k / (PAGE_SIZE as int)).len() == PAGE_SIZE,
        page_bytes(image, k / (PAGE_SIZE as int))[k % (PAGE_SIZE as int)] == image[k],
{
    let i = k / 4096;
    let n = image.len() as int;
    lemma_fundamental_div_mod(k, 4096);
    lemma_fundamental_div_mod(n, 4096);
    assert(0 <= k % 4096 < 4096);
    assert(i < n / 4096) by (nonlinear_arith)
        requires
            k == 4096 * i + k % 4096,
            0 <= k % 4096 < 4096,
            k < n,
            n == 4096 * (n / 4096),
    ;
    assert(i * 4096 + 4096 <= n) by (nonlinear_arith)
        requires
            i < n / 4096,
            n == 4096 * (n / 4096),
    ;
}

} // verus!
