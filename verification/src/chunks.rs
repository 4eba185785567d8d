//! Splitting the rows of an insert into statements that PostgreSQL accepts.
use vstd::prelude::*;

verus! {

/// The most bind parameters that one PostgreSQL statement takes.
pub const PG_MAX_PARAMS: usize = 65535;

/// `rows` cut into consecutive chunks of `size` rows; the last chunk may be shorter.
pub open spec fn chunked<T>(rows: Seq<T>, size: nat) -> Seq<Seq<T>>
    recommends
        size > 0,
    decreases rows.len(),
{
    if rows.len() == 0 || size == 0 {
        seq![]
    } else if rows.len() <= size {
        seq![rows]
    } else {
        seq![rows.take(size as int)] + chunked(rows.skip(size as int), size)
    }
}

/// The chunks one after the other.
pub open spec fn concat<T>(chunks: Seq<Seq<T>>) -> Seq<T>
    decreases chunks.len(),
{
    if chunks.len() == 0 {
        seq![]
    } else {
        chunks[0] + concat(chunks.drop_first())
    }
}

pub open spec fn slices_view<T>(chunks: Seq<&[T]>) -> Seq<Seq<T>> {
    chunks.map_values(|c: &[T]| c@)
}

/// Cuts `rows` into consecutive slices of `size` rows, the last one possibly shorter.
pub fn chunk_rows<T>(rows: &[T], size: usize) -> (chunks: Vec<&[T]>)
    requires
        size > 0,
    ensures
        slices_view(chunks@) == chunked(rows@, size as nat),
{
    let mut chunks: Vec<&[T]> = Vec::new();
    let mut start: usize = 0;
    assert(rows@.skip(0) =~= rows@);
    assert(slices_view(chunks@) + chunked(rows@, size as nat) =~= chunked(rows@, size as nat));
    while start < rows.len()
        invariant
            size > 0,
            start <= rows@.len(),
            chunked(rows@, size as nat) == slices_view(chunks@) + chunked(rows@.skip(start as int), size as nat),
        decreases rows.len() - start,
    {
        let ghost rest = rows@.skip(start as int);
        let end = if rows.len() - start <= size {
            rows.len()
        } else {
            start + size
        };
        let chunk = &rows[start..end];
        let ghost prev = chunks@;
        chunks.push(chunk);
        proof {
            assert(chunk@ =~= rows@.subrange(start as int, end as int));
            assert(slices_view(chunks@) =~= slices_view(prev).push(chunk@));
            if rest.len() <= size {
                assert(chunk@ =~= rest);
                assert(rows@.skip(end as int) =~= Seq::<T>::empty());
                assert(chunked(rest, size as nat) =~= seq![rest]);
                assert(slices_view(prev) + seq![rest] =~= slices_view(chunks@) + chunked(rows@.skip(end as int), size as nat));
            } else {
                assert(chunk@ =~= rest.take(size as int));
                assert(rest.skip(size as int) =~= rows@.skip(end as int));
                assert(slices_view(prev) + (seq![rest.take(size as int)] + chunked(rest.skip(size as int), size as nat)) =~= slices_view(chunks@) + chunked(rows@.skip(end as int), size as nat));
            }
        }
        start = end;
    }
    proof {
        assert(rows@.skip(start as int) =~= Seq::<T>::empty());
        assert(slices_view(chunks@) + Seq::<Seq<T>>::empty() =~= slices_view(chunks@));
    }
    chunks
}

/// Cutting rows into chunks keeps every row, in order, and makes each chunk hold between one
/// and `size` rows.
pub proof fn lemma_chunked<T>(rows: Seq<T>, size: nat)
    requires
        size > 0,
    ensures
        concat(chunked(rows, size)) == rows,
        forall|i: int|
            0 <= i < chunked(rows, size).len() ==> 0 < (#[trigger] chunked(rows, size)[i]).len() <= size,
    decreases rows.len(),
{
    if rows.len() == 0 {
        assert(concat(chunked(rows, size)) =~= rows);
    } else if rows.len() <= size {
        let c = chunked(rows, size);
        assert(c =~= seq![rows]);
        assert(c.drop_first() =~= Seq::<Seq<T>>::empty());
        assert(concat(c.drop_first()) =~= Seq::<T>::empty());
        assert(concat(c) =~= rows);
    } else {
        let rest = rows.skip(size as int);
        lemma_chunked(rest, size);
        let c = chunked(rows, size);
        assert(c =~= seq![rows.take(size as int)] + chunked(rest, size));
        assert(c.drop_first() =~= chunked(rest, size));
        assert(rows.take(size as int) + rest =~= rows);
        assert forall|i: int| 0 <= i < c.len() implies 0 < (#[trigger] c[i]).len() <= size by {
            if i > 0 {
                assert(c[i] == chunked(rest, size)[i - 1]);
            }
        }
    }
}

/// Every chunk of `pg_chunks` fits into one statement: its rows bind at most `PG_MAX_PARAMS`
/// values, and the chunks together are the rows, in order.
pub proof fn lemma_pg_chunks_fit<T>(rows: Seq<T>, values_per_row: nat)
    requires
        0 < values_per_row <= PG_MAX_PARAMS,
    ensures
        concat(chunked(rows, PG_MAX_PARAMS as nat / values_per_row)) == rows,
        forall|i: int|
            0 <= i < chunked(rows, PG_MAX_PARAMS as nat / values_per_row).len() ==> 0 < (#[trigger] chunked(
                rows,
                PG_MAX_PARAMS as nat / values_per_row,
            )[i]).len() && chunked(rows, PG_MAX_PARAMS as nat / values_per_row)[i].len() * values_per_row
                <= PG_MAX_PARAMS,
{
    let size = PG_MAX_PARAMS as nat / values_per_row;
    assert(size > 0) by (nonlinear_arith)
        requires
            0 < values_per_row <= 65535,
            size == 65535nat / values_per_row,
    ;
    lemma_chunked(rows, size);
    assert forall|i: int| 0 <= i < chunked(rows, size).len() implies 0 < (#[trigger] chunked(rows, size)[i]).len()
        && chunked(rows, size)[i].len() * values_per_row <= PG_MAX_PARAMS by {
        let n = chunked(rows, size)[i].len();
        assert(n * values_per_row <= 65535) by (nonlinear_arith)
            requires
                n <= size,
                size == 65535nat / values_per_row,
                values_per_row > 0,
        ;
    }
}

/// Splits rows into chunks that each fit into one insert statement: a statement binds every value
/// of every row it inserts, and takes at most `PG_MAX_PARAMS` of them.
pub trait PostgresChunks<T> {
    /// The number of values in a row.
    spec fn values_per_row() -> nat;

    /// The rows to split.
    spec fn rows(&self) -> Seq<T>;

    /// The rows in chunks of `PG_MAX_PARAMS / values_per_row()` rows, the last one possibly
    /// shorter.
    fn pg_chunks(&self) -> (chunks: Vec<&[T]>)
        ensures
            Self::values_per_row() > 0,
            slices_view(chunks@) == chunked(self.rows(), PG_MAX_PARAMS as nat / Self::values_per_row()),
    ;
}

impl<A, B> PostgresChunks<(A, B)> for Vec<(A, B)> {
    open spec fn values_per_row() -> nat {
        2
    }

    open spec fn rows(&self) -> Seq<(A, B)> {
        self@
    }

    fn pg_chunks(&self) -> (chunks: Vec<&[(A, B)]>) {
        chunk_rows(self.as_slice(), PG_MAX_PARAMS / 2)
    }
}

impl<A, B, C> PostgresChunks<(A, B, C)> for Vec<(A, B, C)> {
    open spec fn values_per_row() -> nat {
        3
    }

    open spec fn rows(&self) -> Seq<(A, B, C)> {
        self@
    }

    fn pg_chunks(&self) -> (chunks: Vec<&[(A, B, C)]>) {
        chunk_rows(self.as_slice(), PG_MAX_PARAMS / 3)
    }
}

impl<A, B, C, D> PostgresChunks<(A, B, C, D)> for Vec<(A, B, C, D)> {
    open spec fn values_per_row() -> nat {
        4
    }

    open spec fn rows(&self) -> Seq<(A, B, C, D)> {
        self@
    }

    fn pg_chunks(&self) -> (chunks: Vec<&[(A, B, C, D)]>) {
        chunk_rows(self.as_slice(), PG_MAX_PARAMS / 4)
    }
}

impl<A, B, C, D, E> PostgresChunks<(A, B, C, D, E)> for Vec<(A, B, C, D, E)> {
    open spec fn values_per_row() -> nat {
        5
    }

    open spec fn rows(&self) -> Seq<(A, B, C, D, E)> {
        self@
    }

    fn pg_chunks(&self) -> (chunks: Vec<&[(A, B, C, D, E)]>) {
        chunk_rows(self.as_slice(), PG_MAX_PARAMS / 5)
    }
}

impl<A, B, C, D, E, F> PostgresChunks<(A, B, C, D, E, F)> for Vec<(A, B, C, D, E, F)> {
    open spec fn values_per_row() -> nat {
        6
    }

    open spec fn rows(&self) -> Seq<(A, B, C, D, E, F)> {
        self@
    }

    fn pg_chunks(&self) -> (chunks: Vec<&[(A, B, C, D, E, F)]>) {
        chunk_rows(self.as_slice(), PG_MAX_PARAMS / 6)
    }
}

impl<A, B, C, D, E, F, G> PostgresChunks<(A, B, C, D, E, F, G)> for Vec<(A, B, C, D, E, F, G)> {
    open spec fn values_per_row() -> nat {
        7
    }

    open spec fn rows(&self) -> Seq<(A, B, C, D, E, F, G)> {
        self@
    }

    fn pg_chunks(&self) -> (chunks: Vec<&[(A, B, C, D, E, F, G)]>) {
        chunk_rows(self.as_slice(), PG_MAX_PARAMS / 7)
    }
}

impl<A, B, C, D, E, F, G, H> PostgresChunks<(A, B, C, D, E, F, G, H)> for Vec<(A, B, C, D, E, F, G, H)> {
    open spec fn values_per_row() -> nat {
        8
    }

    open spec fn rows(&self) -> Seq<(A, B, C, D, E, F, G, H)> {
        self@
    }

    fn pg_chunks(&self) -> (chunks: Vec<&[(A, B, C, D, E, F, G, H)]>) {
        chunk_rows(self.as_slice(), PG_MAX_PARAMS / 8)
    }
}

} // verus!
