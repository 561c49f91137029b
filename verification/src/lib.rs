//! A B-tree cursor over pages in the SQLite file format.

pub mod bytes;
pub mod varint;
pub mod errors;
pub mod record;
pub mod order;
pub mod page;
pub mod pager;
pub mod cell;
pub mod cursor;
pub mod descent;
pub mod walk;
pub mod access;
pub mod space;
pub mod fill;
pub mod balance;
pub mod insert;
pub mod cells;
pub mod compaction;
pub mod rooms;
pub mod payloads;
pub mod tables;
pub mod scans;
pub mod sharing;
pub mod leaves;
pub mod settled;
pub mod splits;
pub mod nodes;
pub mod fans;
pub mod pairs;
pub mod divides;
pub mod growth;
pub mod ways;
pub mod climbs;
pub mod chains;
pub mod follows;
pub mod ranking;
pub mod indexes;
pub mod lookups;
pub mod arrivals;
pub mod localparts;
pub mod comparisons;
pub mod numerals;
pub mod values;
pub mod positions;
pub mod passages;
pub mod formats;
pub mod counts;
pub mod listings;
pub mod stops;
pub mod routes;
pub mod shifts;
