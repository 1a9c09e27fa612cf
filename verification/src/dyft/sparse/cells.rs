//! The cell array of a group of posting lists: the start offsets of the
//! lists that are present, one more than there are lists, followed by
//! their items.

use vstd::prelude::*;

verus! {

/// `cells` holds `c >= 1` lists: `c + 1` ascending offsets that start at 0,
/// then exactly as many items as the last offset says.
pub open spec fn cells_wf(cells: Seq<u32>, c: int) -> bool {
    &&& c >= 1
    &&& cells.len() > c
    &&& cells[0] == 0
    &&& forall|a: int, b: int| 0 <= a <= b <= c ==> #[trigger] cells[a] <= #[trigger] cells[b]
    &&& cells.len() == c + 1 + cells[c]
}

/// The `k`-th of the `c` lists in `cells`.
pub open spec fn list_at(cells: Seq<u32>, c: int, k: int) -> Seq<u32> {
    cells.subrange(c + 1 + cells[k], c + 1 + cells[k + 1])
}

/// `cells` with `vs` put in before index `pos`.
pub open spec fn spliced(cells: Seq<u32>, pos: int, vs: Seq<u32>) -> Seq<u32> {
    cells.subrange(0, pos) + vs + cells.subrange(pos, cells.len() as int)
}

/// `cells` with `n` added to the entries at `lo..hi`.
pub open spec fn raised(cells: Seq<u32>, lo: int, hi: int, n: int) -> Seq<u32> {
    Seq::new(
        cells.len(),
        |i: int|
            if lo <= i < hi {
                (cells[i] + n) as u32
            } else {
                cells[i]
            },
    )
}

/// `cells` after `vs` was added to the end of list `h`.
pub open spec fn after_extend(cells: Seq<u32>, c: int, h: int, vs: Seq<u32>) -> Seq<u32> {
    raised(spliced(cells, c + 1 + cells[h + 1], vs), h + 1, c + 1, vs.len() as int)
}

/// `cells` after an empty list was put in as the `h`-th.
pub open spec fn with_empty_list(cells: Seq<u32>, h: int) -> Seq<u32> {
    cells.insert(h, cells[h])
}

/// `cells` after list `h` was taken out.
pub open spec fn after_extract(cells: Seq<u32>, c: int, h: int) -> Seq<u32> {
    let size = cells[h + 1] - cells[h];
    let pos = c + 1 + cells[h];
    let lowered = raised(cells, h + 2, c + 1, -size);
    (lowered.subrange(0, pos) + lowered.subrange(pos + size, cells.len() as int)).remove(h + 1)
}

/// Adding items to list `h` lengthens that list and leaves the others.
pub proof fn lemma_after_extend(cells: Seq<u32>, c: int, h: int, vs: Seq<u32>)
    requires
        cells_wf(cells, c),
        0 <= h < c,
        cells[c] + vs.len() <= u32::MAX,
    ensures
        cells_wf(after_extend(cells, c, h, vs), c),
        after_extend(cells, c, h, vs)[c] == cells[c] + vs.len(),
        list_at(after_extend(cells, c, h, vs), c, h) == list_at(cells, c, h) + vs,
        forall|k: int|
            0 <= k < c && k != h ==> #[trigger] list_at(after_extend(cells, c, h, vs), c, k)
                == list_at(cells, c, k),
{
    let pos = c + 1 + cells[h + 1];
    let n = vs.len() as int;
    let sp = spliced(cells, pos, vs);
    let new = after_extend(cells, c, h, vs);
    assert(cells[h + 1] <= cells[c]);
    assert(sp.len() == cells.len() + n);
    assert forall|i: int| 0 <= i < new.len() implies new[i] == (if i <= h {
        cells[i]
    } else if i <= c {
        (cells[i] + n) as u32
    } else if i < pos {
        cells[i]
    } else if i < pos + n {
        vs[i - pos]
    } else {
        cells[i - n]
    }) by {
        if i < pos {
            assert(sp[i] == cells[i]);
        } else if i < pos + n {
            assert(sp[i] == vs[i - pos]);
        } else {
            assert(sp[i] == cells[i - n]);
        }
    }
    assert forall|a: int, b: int| 0 <= a <= b <= c implies #[trigger] new[a] <= #[trigger] new[b] by {
        assert(cells[a] <= cells[b]);
        assert(cells[b] <= cells[c]);
    }
    assert(list_at(new, c, h) =~= list_at(cells, c, h) + vs) by {
        assert(cells[h] <= cells[h + 1]);
    }
    assert forall|k: int| 0 <= k < c && k != h implies #[trigger] list_at(new, c, k) == list_at(
        cells,
        c,
        k,
    ) by {
        assert(cells[k] <= cells[k + 1]);
        assert(cells[k + 1] <= cells[c]);
        if k < h {
            assert(cells[k + 1] <= cells[h]);
            assert(cells[h] <= cells[h + 1]);
        } else {
            assert(cells[h + 1] <= cells[k]);
        }
        assert(list_at(new, c, k) =~= list_at(cells, c, k));
    }
}

/// Putting in an empty list as the `h`-th moves the later lists up by
/// one.
pub proof fn lemma_with_empty_list(cells: Seq<u32>, c: int, h: int)
    requires
        cells_wf(cells, c),
        0 <= h <= c,
    ensures
        cells_wf(with_empty_list(cells, h), c + 1),
        with_empty_list(cells, h)[c + 1] == cells[c],
        list_at(with_empty_list(cells, h), c + 1, h) == Seq::<u32>::empty(),
        forall|k: int|
            0 <= k < h ==> #[trigger] list_at(with_empty_list(cells, h), c + 1, k) == list_at(
                cells,
                c,
                k,
            ),
        forall|k: int|
            h < k <= c ==> #[trigger] list_at(with_empty_list(cells, h), c + 1, k) == list_at(
                cells,
                c,
                k - 1,
            ),
{
    let new = with_empty_list(cells, h);
    assert forall|i: int| 0 <= i < new.len() implies new[i] == (if i <= h {
        cells[i]
    } else {
        cells[i - 1]
    }) by {}
    assert forall|a: int, b: int| 0 <= a <= b <= c + 1 implies #[trigger] new[a] <= #[trigger] new[b] by {
        let a0 = if a <= h {
            a
        } else {
            a - 1
        };
        let b0 = if b <= h {
            b
        } else {
            b - 1
        };
        assert(cells[a0] <= cells[b0]);
    }
    assert(list_at(new, c + 1, h) =~= Seq::<u32>::empty());
    assert forall|k: int| 0 <= k < h implies #[trigger] list_at(new, c + 1, k) == list_at(
        cells,
        c,
        k,
    ) by {
        assert(cells[k] <= cells[k + 1]);
        assert(cells[k + 1] <= cells[c]);
        assert(list_at(new, c + 1, k) =~= list_at(cells, c, k));
    }
    assert forall|k: int| h < k <= c implies #[trigger] list_at(new, c + 1, k) == list_at(
        cells,
        c,
        k - 1,
    ) by {
        assert(cells[k - 1] <= cells[k]);
        assert(cells[k] <= cells[c]);
        assert(list_at(new, c + 1, k) =~= list_at(cells, c, k - 1));
    }
}

/// Taking out list `h` moves the later lists down by one and leaves the
/// earlier ones.
pub proof fn lemma_after_extract(cells: Seq<u32>, c: int, h: int)
    requires
        cells_wf(cells, c),
        0 <= h < c,
    ensures
        after_extract(cells, c, h).len() == cells.len() - 1 - (cells[h + 1] - cells[h]),
        c >= 2 ==> cells_wf(after_extract(cells, c, h), c - 1),
        c >= 2 ==> after_extract(cells, c, h)[c - 1] == cells[c] - (cells[h + 1] - cells[h]),
        forall|k: int|
            0 <= k < h ==> #[trigger] list_at(after_extract(cells, c, h), c - 1, k) == list_at(
                cells,
                c,
                k,
            ),
        forall|k: int|
            h <= k < c - 1 ==> #[trigger] list_at(after_extract(cells, c, h), c - 1, k)
                == list_at(cells, c, k + 1),
{
    let size = cells[h + 1] - cells[h];
    let pos = c + 1 + cells[h];
    let lowered = raised(cells, h + 2, c + 1, -size);
    let cut = lowered.subrange(0, pos) + lowered.subrange(pos + size, cells.len() as int);
    let new = after_extract(cells, c, h);
    assert(cells[h] <= cells[h + 1]);
    assert(cells[h + 1] <= cells[c]);
    assert forall|i: int| h + 2 <= i <= c implies cells[i] - size >= cells[h] by {
        assert(cells[h + 1] <= cells[i]);
    }
    assert forall|i: int| 0 <= i < cut.len() implies cut[i] == (if i <= h + 1 {
        cells[i]
    } else if i <= c {
        (cells[i] - size) as u32
    } else if i < pos {
        cells[i]
    } else {
        cells[i + size]
    }) by {
        if i < pos {
            assert(cut[i] == lowered[i]);
        } else {
            assert(cut[i] == lowered[i + size]);
        }
    }
    assert forall|i: int| 0 <= i < new.len() implies new[i] == (if i <= h {
        cells[i]
    } else if i < c {
        (cells[i + 1] - size) as u32
    } else if i < pos - 1 {
        cells[i + 1]
    } else {
        cells[i + 1 + size]
    }) by {
        if i <= h {
            assert(new[i] == cut[i]);
        } else {
            assert(new[i] == cut[i + 1]);
        }
    }
    if c >= 2 {
        assert forall|a: int, b: int| 0 <= a <= b <= c - 1 implies #[trigger] new[a] <= #[trigger] new[b] by {
            let a0 = if a <= h {
                a
            } else {
                a + 1
            };
            let b0 = if b <= h {
                b
            } else {
                b + 1
            };
            assert(cells[a0] <= cells[b0]);
            assert(cells[h + 1] <= cells[b0] || b0 <= h);
            assert(cells[a0] <= cells[h] || a0 > h);
        }
        assert(new[c - 1] == cells[c] - size) by {
            if c - 1 <= h {
                assert(h == c - 1);
            }
        }
    }
    assert forall|k: int| 0 <= k < h implies #[trigger] list_at(new, c - 1, k) == list_at(
        cells,
        c,
        k,
    ) by {
        assert(cells[k] <= cells[k + 1]);
        assert(cells[k + 1] <= cells[h]);
        assert(list_at(new, c - 1, k) =~= list_at(cells, c, k));
    }
    assert forall|k: int| h <= k < c - 1 implies #[trigger] list_at(new, c - 1, k) == list_at(
        cells,
        c,
        k + 1,
    ) by {
        assert(cells[k + 1] <= cells[k + 2]);
        assert(cells[k + 2] <= cells[c]);
        assert(cells[h + 1] <= cells[k + 1]);
        assert(list_at(new, c - 1, k) =~= list_at(cells, c, k + 1));
    }
}

} // verus!
