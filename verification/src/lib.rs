//! Skeletons of Cargo workspaces.
//!
//! A skeleton is an archive of a workspace that holds what is needed to
//! build the dependencies of the workspace and nothing of its sources: the
//! manifests, a stand-in for the source of every target, and a lock file
//! that records the members of the workspace with their dependencies.
//! Unpacked elsewhere, the skeleton lets the external compiler build and
//! cache the dependencies before the sources are there.
//!
//! - [`package`] and [`workspace`]: the members of a workspace and their
//!   direct dependencies;
//! - [`metadata`]: what the package manager's resolver reports;
//! - [`lockfile`]: the lock file, written and read;
//! - [`create`] and [`archive`]: the entries of a skeleton and the archive;
//! - [`unpack`]: whether a directory may take a skeleton;
//! - [`build_plan`]: what to build from an unpacked skeleton;
//! - [`text`], [`order`], [`paths`], [`views`]: the order of text, stable
//!   sorting, paths under a root, and views of sequences;
//! - [`error`]: the errors.

pub mod archive;
pub mod build_plan;
pub mod create;
pub mod error;
pub mod lockfile;
pub mod metadata;
pub mod order;
pub mod package;
pub mod paths;
pub mod text;
pub mod unpack;
pub mod views;
pub mod workspace;
