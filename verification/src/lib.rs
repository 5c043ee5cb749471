pub mod conway;
