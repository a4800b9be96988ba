//! The album library of a self-hosted music stack: grouping the tracks that
//! beets knows into albums, planning the consolidation of albums split over
//! several directories, the parameters of album removal, and the view model
//! of the library page.
pub mod text;
pub mod order;
pub mod tally;
pub mod paths;
pub mod library;
pub mod album_laws;
pub mod consolidate;
pub mod filenames;
pub mod beets;
pub mod view;
